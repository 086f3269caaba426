//! Sand pouring into a cave of rock walls from a source at (500, 0): how many grains come
//! to rest before one falls out past the walls, and before one rests on the source with a
//! floor two rows below the lowest wall. `y` grows downwards.
use vstd::prelude::*;
use std::collections::HashMap;
use crate::text::{find_byte, first_index, parse_i32, pieces, signed_number, slice_of, split_by, str_lines, text_lines, views};

verus! {

broadcast use vstd::std_specs::hash::group_hash_axioms;

/// The largest coordinate, in absolute value, of a wall.
pub const MAX_COORD: i32 = 100_000;

/// What fills a cell.
#[derive(Clone, Copy, Debug, PartialEq, Eq)]
pub enum Material {
    Rock,
    Air,
    Sand,
}

/// A rectangle of cells, bounds included.
#[derive(Clone, Copy, Debug, PartialEq, Eq)]
pub struct BoundingBox {
    pub x_min: i32,
    pub x_max: i32,
    pub y_min: i32,
    pub y_max: i32,
}

impl BoundingBox {
    /// Grows the box to hold `(x, y)`.
    pub fn extend(&mut self, x: i32, y: i32)
        ensures
            final(self).x_min == if x < old(self).x_min { x } else { old(self).x_min },
            final(self).x_max == if x > old(self).x_max { x } else { old(self).x_max },
            final(self).y_min == if y < old(self).y_min { y } else { old(self).y_min },
            final(self).y_max == if y > old(self).y_max { y } else { old(self).y_max },
    {
        if x < self.x_min {
            self.x_min = x;
        }
        if x > self.x_max {
            self.x_max = x;
        }
        if y < self.y_min {
            self.y_min = y;
        }
        if y > self.y_max {
            self.y_max = y;
        }
    }

    /// Whether `(x, y)` lies in the box.
    pub fn contains(&self, x: i32, y: i32) -> (r: bool)
        ensures
            r == (self.x_min <= x <= self.x_max && self.y_min <= y <= self.y_max),
    {
        self.x_min <= x && x <= self.x_max && self.y_min <= y && y <= self.y_max
    }
}

/// The map key of a cell.
pub open spec fn key_of(x: int, y: int) -> u64 {
    ((x + 0x10_0000) * 0x40_0000 + (y + 0x10_0000)) as u64
}

pub open spec fn small(x: int, y: int) -> bool {
    -0x10_0000 < x < 0x10_0000 && -0x10_0000 < y < 0x10_0000
}

proof fn lemma_key(x1: int, y1: int, x2: int, y2: int)
    requires
        small(x1, y1),
        small(x2, y2),
    ensures
        0 <= (x1 + 0x10_0000) * 0x40_0000 + (y1 + 0x10_0000) < 0x800_0000_0000,
        key_of(x1, y1) == key_of(x2, y2) ==> x1 == x2 && y1 == y2,
{
    let a1 = (x1 + 0x10_0000) * 0x40_0000 + (y1 + 0x10_0000);
    let a2 = (x2 + 0x10_0000) * 0x40_0000 + (y2 + 0x10_0000);
    assert(0 <= a1 < 0x800_0000_0000) by (nonlinear_arith)
        requires
            a1 == (x1 + 0x10_0000) * 0x40_0000 + (y1 + 0x10_0000),
            0 <= x1 + 0x10_0000 < 0x20_0000,
            0 <= y1 + 0x10_0000 < 0x20_0000,
    ;
    assert(0 <= a2 < 0x800_0000_0000) by (nonlinear_arith)
        requires
            a2 == (x2 + 0x10_0000) * 0x40_0000 + (y2 + 0x10_0000),
            0 <= x2 + 0x10_0000 < 0x20_0000,
            0 <= y2 + 0x10_0000 < 0x20_0000,
    ;
    if key_of(x1, y1) == key_of(x2, y2) {
        assert(a1 == a2);
        vstd::arithmetic::div_mod::lemma_fundamental_div_mod_converse(a1, 0x40_0000, x1 + 0x10_0000, y1 + 0x10_0000);
        vstd::arithmetic::div_mod::lemma_fundamental_div_mod_converse(a2, 0x40_0000, x2 + 0x10_0000, y2 + 0x10_0000);
    }
}

/// A cave as the box around its walls and the source, and what fills each cell (air
/// where nothing is recorded).
pub type Layout = (BoundingBox, Map<(int, int), Material>);

pub open spec fn mat(l: Layout, x: int, y: int) -> Material {
    if l.1.contains_key((x, y)) { l.1[(x, y)] } else { Material::Air }
}

pub open spec fn in_bounds(b: BoundingBox, x: int, y: int) -> bool {
    b.x_min <= x <= b.x_max && b.y_min <= y <= b.y_max
}

/// The layout with a wall at `(x, y)` and the box grown to hold it.
pub open spec fn with_wall(l: Layout, x: int, y: int) -> Layout {
    let b = l.0;
    (
        BoundingBox {
            x_min: if x < b.x_min { x as i32 } else { b.x_min },
            x_max: if x > b.x_max { x as i32 } else { b.x_max },
            y_min: if y < b.y_min { y as i32 } else { b.y_min },
            y_max: if y > b.y_max { y as i32 } else { b.y_max },
        },
        l.1.insert((x, y), Material::Rock),
    )
}

/// Where a grain at `(x, y)` comes to rest: straight down, else down-left, else
/// down-right, through air; `None` once it leaves the box.
pub open spec fn settle(l: Layout, x: int, y: int) -> Option<(int, int)>
    decreases l.0.y_max - y + 1,
{
    if !in_bounds(l.0, x, y) {
        None
    } else if mat(l, x, y + 1) == Material::Air {
        settle(l, x, y + 1)
    } else if mat(l, x - 1, y + 1) == Material::Air {
        settle(l, x - 1, y + 1)
    } else if mat(l, x + 1, y + 1) == Material::Air {
        settle(l, x + 1, y + 1)
    } else {
        Some((x, y))
    }
}

/// The layout after `n` grains from the source all came to rest, or `None` if one did not.
pub open spec fn pour(l: Layout, n: nat) -> Option<Layout>
    decreases n,
{
    if n == 0 {
        Some(l)
    } else {
        match pour(l, (n - 1) as nat) {
            Some(m) => match settle(m, 500, 0) {
                Some(p) => Some((m.0, m.1.insert(p, Material::Sand))),
                None => None,
            },
            None => None,
        }
    }
}

/// All coordinates of the box are small enough for keys.
pub open spec fn box_small(b: BoundingBox) -> bool {
    -MAX_COORD - 2000 <= b.x_min <= b.x_max <= MAX_COORD + 2000 && -MAX_COORD - 2000 <= b.y_min <= b.y_max
        <= MAX_COORD + 2000
}

/// The box lies within `MAX_COORD` of the origin.
pub open spec fn box_inner(b: BoundingBox) -> bool {
    -MAX_COORD <= b.x_min && b.x_max <= MAX_COORD && -MAX_COORD <= b.y_min && b.y_max <= MAX_COORD
}

/// A cave: what fills each recorded cell, by key, and the box around its walls.
pub struct Cave {
    map: HashMap<u64, Material>,
    pub bounds: BoundingBox,
}

impl Cave {
    /// The cave's layout.
    pub closed spec fn layout(&self) -> Layout {
        (
            self.bounds,
            Map::new(
                |p: (int, int)| small(p.0, p.1) && self.map@.contains_key(key_of(p.0, p.1)),
                |p: (int, int)| self.map@[key_of(p.0, p.1)],
            ),
        )
    }

    /// Every recorded key is that of a small cell.
    pub closed spec fn wf(&self) -> bool {
        &&& box_small(self.bounds)
        &&& forall|k: u64| #[trigger] self.map@.contains_key(k) ==> exists|x: int, y: int| small(x, y) && k == key_of(x, y)
    }

    /// An empty cave whose box holds only the source.
    pub fn new() -> (r: Cave)
        ensures
            r.wf(),
            r.layout() == (BoundingBox { x_min: 500, x_max: 500, y_min: 0, y_max: 0 }, Map::<(int, int), Material>::empty()),
    {
        let r = Cave { map: HashMap::new(), bounds: BoundingBox { x_min: 500, x_max: 500, y_min: 0, y_max: 0 } };
        assert(r.layout().1 =~= Map::<(int, int), Material>::empty());
        r
    }

    fn key(x: i32, y: i32) -> (r: u64)
        requires
            small(x as int, y as int),
        ensures
            r == key_of(x as int, y as int),
    {
        proof {
            lemma_key(x as int, y as int, x as int, y as int);
        }
        ((x as i64 + 0x10_0000) * 0x40_0000 + (y as i64 + 0x10_0000)) as u64
    }

    /// Records a wall at `(x, y)` and grows the box to hold it.
    pub fn add_wall(&mut self, x: i32, y: i32)
        requires
            old(self).wf(),
            -MAX_COORD - 1000 <= x <= MAX_COORD + 1000,
            -MAX_COORD - 1000 <= y <= MAX_COORD + 1000,
        ensures
            final(self).wf(),
            final(self).layout() == with_wall(old(self).layout(), x as int, y as int),
    {
        let ghost before = self.layout();
        let k = Cave::key(x, y);
        let ghost old_map = self.map@;
        self.map.insert(k, Material::Rock);
        self.bounds.extend(x, y);
        proof {
            assert forall|kk: u64| #[trigger] self.map@.contains_key(kk) implies exists|a: int, b: int|
                small(a, b) && kk == key_of(a, b) by {
                if kk == k {
                    assert(small(x as int, y as int) && kk == key_of(x as int, y as int));
                }
            }
            assert forall|p: (int, int)| small(p.0, p.1) implies (key_of(p.0, p.1) == k <==> p == (x as int, y as int)) by {
                lemma_key(p.0, p.1, x as int, y as int);
            }
            assert(self.layout().1 =~= before.1.insert((x as int, y as int), Material::Rock));
        }
    }

    /// Drops a grain of sand from the source: where it comes to rest, now recorded as
    /// sand, or `None` when it falls out of the box.
    pub fn add_sand(&mut self) -> (r: Option<(i32, i32)>)
        requires
            old(self).wf(),
        ensures
            final(self).wf(),
            match r {
                Some(p) => settle(old(self).layout(), 500, 0) == Some((p.0 as int, p.1 as int)) && final(self).layout() == (
                old(self).layout().0,
                old(self).layout().1.insert((p.0 as int, p.1 as int), Material::Sand),
                ),
                None => settle(old(self).layout(), 500, 0) is None && final(self).layout() == old(self).layout(),
            },
    {
        let ghost l = self.layout();
        let mut x: i32 = 500;
        let mut y: i32 = 0;
        loop
            invariant
                self.wf(),
                self.layout() == l,
                l == old(self).layout(),
                settle(l, 500, 0) == settle(l, x as int, y as int),
                -MAX_COORD - 2001 <= x <= MAX_COORD + 2001,
                -MAX_COORD - 2001 <= y <= MAX_COORD + 2001,
                l.0 == self.bounds,
            decreases self.bounds.y_max - y + 1,
        {
            if !self.bounds.contains(x, y) {
                assert(settle(l, x as int, y as int) is None);
                return None;
            }
            if matches!(self.get(x, y + 1), Material::Air) {
                assert(settle(l, x as int, y as int) == settle(l, x as int, y + 1));
                y += 1;
            } else if matches!(self.get(x - 1, y + 1), Material::Air) {
                assert(settle(l, x as int, y as int) == settle(l, x - 1, y + 1));
                x -= 1;
                y += 1;
            } else if matches!(self.get(x + 1, y + 1), Material::Air) {
                assert(settle(l, x as int, y as int) == settle(l, x + 1, y + 1));
                x += 1;
                y += 1;
            } else {
                assert(settle(l, x as int, y as int) == Some((x as int, y as int)));
                let k = Cave::key(x, y);
                self.map.insert(k, Material::Sand);
                proof {
                    assert forall|kk: u64| #[trigger] self.map@.contains_key(kk) implies exists|a: int, b: int|
                        small(a, b) && kk == key_of(a, b) by {
                        if kk == k {
                            assert(small(x as int, y as int) && kk == key_of(x as int, y as int));
                        }
                    }
                    assert forall|p: (int, int)| small(p.0, p.1) implies (key_of(p.0, p.1) == k <==> p == (
                        x as int,
                        y as int,
                    )) by {
                        lemma_key(p.0, p.1, x as int, y as int);
                    }
                    assert(self.layout().1 =~= l.1.insert((x as int, y as int), Material::Sand));
                }
                return Some((x, y));
            }
        }
    }

    /// A copy of the cave.
    pub fn clone_cave(&self) -> (r: Cave)
        requires
            self.wf(),
        ensures
            r.wf(),
            r.layout() == self.layout(),
    {
        let r = Cave { map: self.map.clone(), bounds: self.bounds };
        assert(r.layout().1 =~= self.layout().1);
        r
    }

    /// What fills `(x, y)`.
    pub fn get(&self, x: i32, y: i32) -> (r: Material)
        requires
            self.wf(),
        ensures
            r == mat(self.layout(), x as int, y as int),
    {
        if !(-0x10_0000 < x && x < 0x10_0000 && -0x10_0000 < y && y < 0x10_0000) {
            return Material::Air;
        }
        let k = Cave::key(x, y);
        match self.map.get(&k) {
            Some(m) => *m,
            None => Material::Air,
        }
    }
}


/// `n` grains came to rest and the next one falls out of the box.
pub open spec fn ends_falling(l: Layout, n: nat) -> bool {
    pour(l, n) matches Some(m) && settle(m, 500, 0) is None
}

proof fn lemma_pour_prefix(l: Layout, a: nat, b: nat)
    requires
        a <= b,
        pour(l, b) is Some,
    ensures
        pour(l, a) is Some,
    decreases b - a,
{
    if a < b {
        lemma_pour_prefix(l, a, (b - 1) as nat);
    }
}

/// How many grains come to rest before one falls out of the box.
pub fn part1(input: &Cave) -> (r: u32)
    requires
        input.wf(),
        exists|n: nat| n <= u32::MAX && #[trigger] ends_falling(input.layout(), n),
    ensures
        ends_falling(input.layout(), r as nat),
{
    let ghost l = input.layout();
    let ghost stop = choose|n: nat| n <= u32::MAX && #[trigger] ends_falling(l, n);
    let mut cave = input.clone_cave();
    let mut count: u32 = 0;
    loop
        invariant
            cave.wf(),
            count <= stop <= u32::MAX,
            l == input.layout(),
            ends_falling(l, stop),
            pour(l, count as nat) == Some(cave.layout()),
        decreases stop - count,
    {
        let ghost before = cave.layout();
        match cave.add_sand() {
            Some(_) => {
                proof {
                    if count == stop {
                        assert(settle(before, 500, 0) is None);
                    }
                }
                count += 1;
            },
            None => {
                assert(ends_falling(l, count as nat));
                return count;
            },
        }
    }
}

/// `n` grains came to rest and either the last rested on the source or the next falls out.
pub open spec fn ends_filled(l: Layout, n: nat) -> bool {
    pour(l, n) matches Some(m) && ((n >= 1 && settle(pour(l, (n - 1) as nat)->Some_0, 500, 0) == Some((500int, 0int)))
        || settle(m, 500, 0) is None)
}

/// The layout with walls at `(x0 + i, y)` for `i < n`, added in order.
pub open spec fn with_row(l: Layout, x0: int, n: nat, y: int) -> Layout
    decreases n,
{
    if n == 0 {
        l
    } else {
        let m = with_row(l, x0, (n - 1) as nat, y);
        with_wall(m, x0 + n - 1, y)
    }
}

/// The layout with a floor two rows below the box, reaching 500 columns past it on the
/// left and 499 on the right.
pub open spec fn with_floor(l: Layout) -> Layout {
    let b = l.0;
    with_row(l, b.x_min - 500, (b.x_max - b.x_min + 1000) as nat, b.y_max + 2)
}

/// How many grains come to rest, with the floor in place, until one rests on the source
/// (that one counted) or one falls out.
pub fn part2(input: &Cave) -> (r: u32)
    requires
        input.wf(),
        box_inner(input.layout().0),
        exists|n: nat| n <= u32::MAX && #[trigger] ends_filled(with_floor(input.layout()), n),
    ensures
        ends_filled(with_floor(input.layout()), r as nat),
        forall|j: nat| j < r ==> !#[trigger] ends_filled(with_floor(input.layout()), j),
{
    let mut cave = input.clone_cave();
    let ghost l = input.layout();
    let floor_height = cave.bounds.y_max + 2;
    let x0 = cave.bounds.x_min - 500;
    let x1 = cave.bounds.x_max + 500;
    let mut x = x0;
    while x < x1
        invariant
            cave.wf(),
            box_inner(l.0),
            box_small(l.0),
            x0 == l.0.x_min - 500,
            x1 == l.0.x_max + 500,
            floor_height == l.0.y_max + 2,
            x0 <= x <= x1,
            cave.layout() == with_row(l, x0 as int, (x - x0) as nat, floor_height as int),
        decreases x1 - x,
    {
        cave.add_wall(x, floor_height);
        x += 1;
    }
    let ghost f = with_floor(l);
    assert(cave.layout() == f);
    let ghost stop = choose|n: nat| n <= u32::MAX && #[trigger] ends_filled(f, n);
    let mut count: u32 = 0;
    loop
        invariant
            cave.wf(),
            count <= stop <= u32::MAX,
            f == with_floor(input.layout()),
            ends_filled(f, stop),
            pour(f, count as nat) == Some(cave.layout()),
            count >= 1 ==> settle(pour(f, (count - 1) as nat)->Some_0, 500, 0) != Some((500int, 0int)),
            forall|j: nat| j < count ==> !#[trigger] ends_filled(f, j),
        decreases stop - count,
    {
        let ghost before = cave.layout();
        match cave.add_sand() {
            Some(p) => {
                proof {
                    assert(!ends_filled(f, count as nat)) by {
                        if ends_filled(f, count as nat) {
                            assert(settle(before, 500, 0) is None);
                        }
                    }
                }
                count += 1;
                if p.0 == 500 && p.1 == 0 {
                    assert(ends_filled(f, count as nat));
                    return count;
                }
            },
            None => {
                assert(ends_filled(f, count as nat));
                return count;
            },
        }
    }
}


/// The wall point written `x,y`, each coordinate at most `MAX_COORD` in absolute value.
pub open spec fn point_text(s: Seq<u8>) -> Option<(int, int)> {
    match first_index(s, 44) {
        Some(i) => match (signed_number(s.subrange(0, i)), signed_number(s.subrange(i + 1, s.len() as int))) {
            (Some(x), Some(y)) => if -MAX_COORD <= x <= MAX_COORD && -MAX_COORD <= y <= MAX_COORD {
                Some((x, y))
            } else {
                None
            },
            _ => None,
        },
        None => None,
    }
}

/// The corners of a wall written as points joined by ` -> `: the line split at spaces is
/// points in the even places and `->` in the odd ones.
pub open spec fn path_text(line: Seq<u8>) -> Option<Seq<(int, int)>> {
    let t = pieces(line, 32);
    if t.len() % 2 == 1 && (forall|k: int| 0 <= k < t.len() && k % 2 == 1 ==> #[trigger] t[k] == seq![45u8, 62])
        && (forall|k: int| 0 <= k < t.len() && k % 2 == 0 ==> #[trigger] point_text(t[k]) is Some) {
        Some(Seq::new(((t.len() + 1) / 2) as nat, |k: int| point_text(t[2 * k])->Some_0))
    } else {
        None
    }
}

/// The walls of the lines `ls`, or `None` when a line is not a wall.
pub open spec fn walls_text(ls: Seq<Seq<u8>>) -> Option<Seq<Seq<(int, int)>>>
    decreases ls.len(),
{
    if ls.len() == 0 {
        Some(Seq::empty())
    } else {
        match (walls_text(ls.drop_last()), path_text(ls.last())) {
            (Some(ws), Some(p)) => Some(ws.push(p)),
            _ => None,
        }
    }
}

/// The layout with walls at `(x, y0 + i)` for `i < n`, added in order.
pub open spec fn with_col(l: Layout, x: int, y0: int, n: nat) -> Layout
    decreases n,
{
    if n == 0 {
        l
    } else {
        with_wall(with_col(l, x, y0, (n - 1) as nat), x, y0 + n - 1)
    }
}

pub open spec fn lo(a: int, b: int) -> int {
    if a <= b { a } else { b }
}

pub open spec fn hi(a: int, b: int) -> int {
    if a >= b { a } else { b }
}

/// The layout with the wall from `cur` to `corner`: the run of the row of `cur` over the
/// columns between them, then the run of the column of `cur` over the rows between them.
pub open spec fn with_segment(l: Layout, cur: (int, int), corner: (int, int)) -> Layout {
    let a = with_row(l, lo(cur.0, corner.0), (hi(cur.0, corner.0) - lo(cur.0, corner.0) + 1) as nat, cur.1);
    with_col(a, cur.0, lo(cur.1, corner.1), (hi(cur.1, corner.1) - lo(cur.1, corner.1) + 1) as nat)
}

/// The layout with the first `j` segments of the wall `pts`.
pub open spec fn with_path(l: Layout, pts: Seq<(int, int)>, j: int) -> Layout
    decreases j,
{
    if j <= 0 {
        l
    } else {
        with_segment(with_path(l, pts, j - 1), pts[j - 1], pts[j])
    }
}

/// The layout with the first `n` walls of `walls`.
pub open spec fn with_walls(l: Layout, walls: Seq<Seq<(int, int)>>, n: int) -> Layout
    decreases n,
{
    if n <= 0 {
        l
    } else {
        let w = walls[n - 1];
        with_path(with_walls(l, walls, n - 1), w, w.len() - 1)
    }
}

pub open spec fn empty_cave() -> Layout {
    (BoundingBox { x_min: 500, x_max: 500, y_min: 0, y_max: 0 }, Map::<(int, int), Material>::empty())
}

/// Every coordinate of the box is within `MAX_COORD`, and so are the corners.
pub open spec fn corners_inner(b: BoundingBox, pts: Seq<(int, int)>) -> bool {
    box_inner(b) && forall|k: int| 0 <= k < pts.len() ==> -MAX_COORD <= (#[trigger] pts[k]).0 <= MAX_COORD && -MAX_COORD
        <= pts[k].1 <= MAX_COORD
}

fn parse_point(s: &Vec<u8>) -> (r: Option<(i32, i32)>)
    ensures
        match r {
            Some(p) => point_text(s@) == Some((p.0 as int, p.1 as int)),
            None => point_text(s@) is None,
        },
{
    let n = s.len();
    match find_byte(s.as_slice(), 44) {
        Some(i) => {
            assert(i < n);
            let a = slice_of(s.as_slice(), 0, i);
            let b = slice_of(s.as_slice(), i + 1, n);
            match (parse_i32(a.as_slice()), parse_i32(b.as_slice())) {
                (Some(x), Some(y)) => {
                    if -MAX_COORD <= x && x <= MAX_COORD && -MAX_COORD <= y && y <= MAX_COORD {
                        Some((x, y))
                    } else {
                        None
                    }
                },
                _ => None,
            }
        },
        None => None,
    }
}

/// The corners of the wall on `line`; `None` when it is not points joined by ` -> `.
fn parse_line(line: &Vec<u8>) -> (r: Option<Vec<(i32, i32)>>)
    ensures
        match r {
            Some(v) => path_text(line@) == Some(v@.map_values(|p: (i32, i32)| (p.0 as int, p.1 as int))),
            None => path_text(line@) is None,
        },
{
    let t = split_by(line.as_slice(), 32);
    let ghost ts = views(t@);
    if t.len() % 2 != 1 {
        return None;
    }
    let mut pts: Vec<(i32, i32)> = Vec::new();
    let mut k: usize = 0;
    while k < t.len()
        invariant
            ts == views(t@),
            ts == pieces(line@, 32),
            ts.len() % 2 == 1,
            k <= ts.len(),
            k % 2 == 0 || k == ts.len(),
            forall|j: int| 0 <= j < k && j % 2 == 1 ==> #[trigger] ts[j] == seq![45u8, 62],
            forall|j: int| 0 <= j < k && j % 2 == 0 ==> #[trigger] point_text(ts[j]) is Some,
            pts@.len() == (k + 1) / 2,
            forall|j: int| 0 <= j < pts@.len() ==> point_text(ts[2 * j]) == Some(((#[trigger] pts@[j]).0 as int, pts@[j].1 as int)),
        decreases ts.len() - k,
    {
        assert(t@[k as int]@ == ts[k as int]);
        match parse_point(&t[k]) {
            Some(p) => pts.push(p),
            None => {
                return None;
            },
        }
        if k + 1 < t.len() {
            let arrow = &t[k + 1];
            assert(arrow@ == ts[k + 1]);
            if !(arrow.len() == 2 && arrow[0] == 45 && arrow[1] == 62) {
                proof {
                    if ts[k + 1] == seq![45u8, 62] {
                        assert(seq![45u8, 62].len() == 2);
                        assert(seq![45u8, 62][0] == 45 && seq![45u8, 62][1] == 62);
                    }
                }
                return None;
            }
            assert(arrow@ =~= seq![45u8, 62]);
            k += 2;
        } else {
            k += 1;
        }
    }
    proof {
        assert(pts@.map_values(|p: (i32, i32)| (p.0 as int, p.1 as int)) =~= Seq::new(
            ((ts.len() + 1) / 2) as nat,
            |j: int| point_text(ts[2 * j])->Some_0,
        ));
    }
    Some(pts)
}

impl Cave {
    /// Adds the wall from `cur` to `corner` (see `with_segment`).
    fn add_segment(&mut self, cur: (i32, i32), corner: (i32, i32))
        requires
            old(self).wf(),
            -MAX_COORD <= cur.0 <= MAX_COORD && -MAX_COORD <= cur.1 <= MAX_COORD,
            -MAX_COORD <= corner.0 <= MAX_COORD && -MAX_COORD <= corner.1 <= MAX_COORD,
        ensures
            final(self).wf(),
            final(self).layout() == with_segment(old(self).layout(), (cur.0 as int, cur.1 as int), (corner.0 as int, corner.1 as int)),
    {
        let ghost l = self.layout();
        let x0 = if cur.0 <= corner.0 { cur.0 } else { corner.0 };
        let x1 = if cur.0 >= corner.0 { cur.0 } else { corner.0 };
        let mut x = x0;
        while x <= x1
            invariant
                self.wf(),
                x0 <= x <= x1 + 1,
                -MAX_COORD <= x0 && x1 <= MAX_COORD,
                -MAX_COORD <= cur.1 <= MAX_COORD,
                self.layout() == with_row(l, x0 as int, (x - x0) as nat, cur.1 as int),
            decreases x1 + 1 - x,
        {
            self.add_wall(x, cur.1);
            x += 1;
        }
        let ghost a = self.layout();
        let y0 = if cur.1 <= corner.1 { cur.1 } else { corner.1 };
        let y1 = if cur.1 >= corner.1 { cur.1 } else { corner.1 };
        let mut y = y0;
        while y <= y1
            invariant
                self.wf(),
                y0 <= y <= y1 + 1,
                -MAX_COORD <= y0 && y1 <= MAX_COORD,
                -MAX_COORD <= cur.0 <= MAX_COORD,
                self.layout() == with_col(a, cur.0 as int, y0 as int, (y - y0) as nat),
            decreases y1 + 1 - y,
        {
            self.add_wall(cur.0, y);
            y += 1;
        }
    }
}

/// The cave whose walls are drawn by the lines of `input`; `None` when a line is not
/// points `x,y` joined by ` -> `, with coordinates of at most `MAX_COORD`.
pub fn generator(input: &str) -> (r: Option<Cave>)
    ensures
        match r {
            Some(c) => walls_text(text_lines(input)) matches Some(ws) && c.wf() && c.layout() == with_walls(
                empty_cave(),
                ws,
                ws.len() as int,
            ) && box_inner(c.layout().0),
            None => walls_text(text_lines(input)) is None,
        },
{
    let rows = str_lines(input);
    let ghost ls = views(rows@);
    let mut cave = Cave::new();
    let ghost mut ws: Seq<Seq<(int, int)>> = Seq::empty();
    let mut i: usize = 0;
    while i < rows.len()
        invariant
            ls == views(rows@),
            ls == text_lines(input),
            i <= ls.len(),
            walls_text(ls.subrange(0, i as int)) == Some(ws),
            cave.wf(),
            box_inner(cave.layout().0),
            cave.layout() == with_walls(empty_cave(), ws, ws.len() as int),
        decreases ls.len() - i,
    {
        assert(ls.subrange(0, i + 1).drop_last() =~= ls.subrange(0, i as int));
        assert(rows@[i as int]@ == ls[i as int]);
        let pts = match parse_line(&rows[i]) {
            Some(p) => p,
            None => {
                proof {
                    lemma_walls_none(ls, i + 1);
                }
                return None;
            },
        };
        let ghost path = pts@.map_values(|p: (i32, i32)| (p.0 as int, p.1 as int));
        let ghost base = cave.layout();
        let mut j: usize = 1;
        while j < pts.len()
            invariant
                cave.wf(),
                box_inner(cave.layout().0),
                i < ls.len(),
                path == pts@.map_values(|p: (i32, i32)| (p.0 as int, p.1 as int)),
                path_text(ls[i as int]) == Some(path),
                1 <= j,
                j <= pts@.len() || pts@.len() == 0,
                cave.layout() == with_path(base, path, j - 1),
            decreases pts@.len() - j,
        {
            assert(path[j - 1] == (pts@[j - 1].0 as int, pts@[j - 1].1 as int));
            assert(path[j as int] == (pts@[j as int].0 as int, pts@[j as int].1 as int));
            proof {
                lemma_path_points(ls[i as int], j - 1);
                lemma_path_points(ls[i as int], j as int);
            }
            let ghost prev = cave.layout();
            proof {
                lemma_segment_inner(prev, path[j - 1], path[j as int]);
            }
            cave.add_segment(pts[j - 1], pts[j]);
            j += 1;
        }
        proof {
            let old_ws = ws;
            ws = ws.push(path);
            lemma_path_nonempty(ls[i as int]);
            lemma_walls_prefix(empty_cave(), ws, old_ws, old_ws.len() as int);
            assert(with_walls(empty_cave(), ws, ws.len() as int) == with_path(
                with_walls(empty_cave(), ws, old_ws.len() as int),
                path,
                path.len() - 1,
            ));
        }
        i += 1;
    }
    assert(ls.subrange(0, ls.len() as int) =~= ls);
    Some(cave)
}

proof fn lemma_walls_none(all: Seq<Seq<u8>>, i: int)
    requires
        0 <= i <= all.len(),
        walls_text(all.subrange(0, i)) is None,
    ensures
        walls_text(all) is None,
    decreases all.len() - i,
{
    if i < all.len() {
        assert(all.subrange(0, i + 1).drop_last() =~= all.subrange(0, i));
        lemma_walls_none(all, i + 1);
    } else {
        assert(all.subrange(0, i) =~= all);
    }
}

proof fn lemma_path_points(line: Seq<u8>, k: int)
    requires
        path_text(line) matches Some(p) && 0 <= k < p.len(),
    ensures
        path_text(line) matches Some(p) && -MAX_COORD <= p[k].0 <= MAX_COORD && -MAX_COORD <= p[k].1 <= MAX_COORD,
{
    let t = pieces(line, 32);
    assert(point_text(t[2 * k]) is Some);
}

proof fn lemma_path_nonempty(line: Seq<u8>)
    requires
        path_text(line) is Some,
    ensures
        path_text(line)->Some_0.len() >= 1,
{
}

proof fn lemma_row_inner(l: Layout, x0: int, n: nat, y: int)
    requires
        box_inner(l.0),
        -MAX_COORD <= x0,
        x0 + n - 1 <= MAX_COORD,
        -MAX_COORD <= y <= MAX_COORD,
    ensures
        box_inner(with_row(l, x0, n, y).0),
    decreases n,
{
    if n > 0 {
        lemma_row_inner(l, x0, (n - 1) as nat, y);
    }
}

proof fn lemma_col_inner(l: Layout, x: int, y0: int, n: nat)
    requires
        box_inner(l.0),
        -MAX_COORD <= y0,
        y0 + n - 1 <= MAX_COORD,
        -MAX_COORD <= x <= MAX_COORD,
    ensures
        box_inner(with_col(l, x, y0, n).0),
    decreases n,
{
    if n > 0 {
        lemma_col_inner(l, x, y0, (n - 1) as nat);
    }
}

/// A segment between points within `MAX_COORD` keeps the box within it.
proof fn lemma_segment_inner(l: Layout, a: (int, int), b: (int, int))
    requires
        box_inner(l.0),
        -MAX_COORD <= a.0 <= MAX_COORD && -MAX_COORD <= a.1 <= MAX_COORD,
        -MAX_COORD <= b.0 <= MAX_COORD && -MAX_COORD <= b.1 <= MAX_COORD,
    ensures
        box_inner(with_segment(l, a, b).0),
{
    let r = with_row(l, lo(a.0, b.0), (hi(a.0, b.0) - lo(a.0, b.0) + 1) as nat, a.1);
    lemma_row_inner(l, lo(a.0, b.0), (hi(a.0, b.0) - lo(a.0, b.0) + 1) as nat, a.1);
    lemma_col_inner(r, a.0, lo(a.1, b.1), (hi(a.1, b.1) - lo(a.1, b.1) + 1) as nat);
}

proof fn lemma_walls_prefix(l: Layout, a: Seq<Seq<(int, int)>>, b: Seq<Seq<(int, int)>>, n: int)
    requires
        0 <= n <= a.len(),
        n <= b.len(),
        forall|k: int| 0 <= k < n ==> a[k] == b[k],
    ensures
        with_walls(l, a, n) == with_walls(l, b, n),
    decreases n,
{
    if n > 0 {
        lemma_walls_prefix(l, a, b, n - 1);
    }
}

} // verus!
