//! Lava droplets made of unit cubes: their surface area, and the part of it that air from
//! outside can reach.
use vstd::prelude::*;
use vstd::set_lib::{lemma_int_range, lemma_len_subset, set_int_range};
use crate::text::{find_byte, first_index, parse_i32, signed_number, slice_of, str_lines, text_lines, views};

verus! {

/// A unit cube, by its coordinates.
pub type Point = (i32, i32, i32);

/// The largest coordinate, in absolute value, a cube may have.
pub const MAX_COORD: i32 = 1_000_000;

pub open spec fn cube(p: Point) -> (int, int, int) {
    (p.0 as int, p.1 as int, p.2 as int)
}

/// Neighbour `i` (`0 <= i < 6`) of `p`: one step along -x, +x, -y, +y, -z or +z.
pub open spec fn nbr(p: (int, int, int), i: int) -> (int, int, int) {
    if i == 0 {
        (p.0 - 1, p.1, p.2)
    } else if i == 1 {
        (p.0 + 1, p.1, p.2)
    } else if i == 2 {
        (p.0, p.1 - 1, p.2)
    } else if i == 3 {
        (p.0, p.1 + 1, p.2)
    } else if i == 4 {
        (p.0, p.1, p.2 - 1)
    } else {
        (p.0, p.1, p.2 + 1)
    }
}

/// The neighbour in the opposite direction to `i`.
pub open spec fn opposite(i: int) -> int {
    if i % 2 == 0 { i + 1 } else { i - 1 }
}

pub open spec fn small(p: (int, int, int)) -> bool {
    -MAX_COORD <= p.0 <= MAX_COORD && -MAX_COORD <= p.1 <= MAX_COORD && -MAX_COORD <= p.2 <= MAX_COORD
}

/// `lava` holds `q`.
pub open spec fn in_set(lava: Seq<Point>, q: (int, int, int)) -> bool {
    exists|k: int| 0 <= k < lava.len() && cube(#[trigger] lava[k]) == q
}

/// How many of the six neighbours of `c` satisfy `open`.
pub open spec fn count_sides(c: (int, int, int), open: spec_fn((int, int, int)) -> bool, i: int) -> nat
    decreases i,
{
    if i <= 0 {
        0
    } else {
        count_sides(c, open, i - 1) + if open(nbr(c, i - 1)) { 1nat } else { 0nat }
    }
}

/// The number of faces of the first `n` cubes whose neighbour satisfies `open`.
pub open spec fn faces(lava: Seq<Point>, open: spec_fn((int, int, int)) -> bool, n: int) -> nat
    decreases n,
{
    if n <= 0 {
        0
    } else {
        faces(lava, open, n - 1) + count_sides(cube(lava[n - 1]), open, 6)
    }
}

/// The faces of `lava` not against another cube of `lava`.
pub open spec fn surface(lava: Seq<Point>) -> nat {
    faces(lava, |q: (int, int, int)| !in_set(lava, q), lava.len() as int)
}

/// Whether `lava` holds `q`.
fn contains(lava: &Vec<Point>, q: Point) -> (r: bool)
    ensures
        r == in_set(lava@, cube(q)),
{
    let mut k: usize = 0;
    while k < lava.len()
        invariant
            k <= lava@.len(),
            forall|j: int| 0 <= j < k ==> cube(#[trigger] lava@[j]) != cube(q),
        decreases lava@.len() - k,
    {
        if lava[k].0 == q.0 && lava[k].1 == q.1 && lava[k].2 == q.2 {
            assert(cube(lava@[k as int]) == cube(q));
            return true;
        }
        k += 1;
    }
    false
}

/// The six neighbours of `point`.
pub fn neighbors(point: &Point) -> (r: Vec<Point>)
    requires
        small(cube(*point)),
    ensures
        r@.len() == 6,
        forall|i: int| 0 <= i < 6 ==> cube(#[trigger] r@[i]) == nbr(cube(*point), i),
{
    let r = vec![
        (point.0 - 1, point.1, point.2),
        (point.0 + 1, point.1, point.2),
        (point.0, point.1 - 1, point.2),
        (point.0, point.1 + 1, point.2),
        (point.0, point.1, point.2 - 1),
        (point.0, point.1, point.2 + 1),
    ];
    r
}

/// How many neighbours of `c` give `want` for membership in `set`.
fn count_neighbours(c: &Point, set: &Vec<Point>, want: bool) -> (r: usize)
    requires
        small(cube(*c)),
    ensures
        r == count_sides(cube(*c), |q: (int, int, int)| in_set(set@, q) == want, 6),
        r <= 6,
{
    let ns = neighbors(c);
    let ghost open = |q: (int, int, int)| in_set(set@, q) == want;
    let mut n: usize = 0;
    let mut i: usize = 0;
    while i < 6
        invariant
            ns@.len() == 6,
            forall|j: int| 0 <= j < 6 ==> cube(#[trigger] ns@[j]) == nbr(cube(*c), j),
            open == (|q: (int, int, int)| in_set(set@, q) == want),
            i <= 6,
            n == count_sides(cube(*c), open, i as int),
            n <= i,
        decreases 6 - i,
    {
        assert(cube(ns@[i as int]) == nbr(cube(*c), i as int));
        if contains(set, ns[i]) == want {
            n += 1;
        }
        i += 1;
    }
    n
}

/// The number of faces of cubes of `lava` that are not against another cube of `lava`.
pub fn part1(lava: &Vec<Point>) -> (r: usize)
    requires
        forall|k: int| 0 <= k < lava@.len() ==> small(cube(#[trigger] lava@[k])),
        lava@.len() * 6 <= usize::MAX,
    ensures
        r == surface(lava@),
{
    let ghost open = |q: (int, int, int)| !in_set(lava@, q);
    let mut total: usize = 0;
    let mut k: usize = 0;
    while k < lava.len()
        invariant
            forall|j: int| 0 <= j < lava@.len() ==> small(cube(#[trigger] lava@[j])),
            lava@.len() * 6 <= usize::MAX,
            open == (|q: (int, int, int)| !in_set(lava@, q)),
            k <= lava@.len(),
            total == faces(lava@, open, k as int),
            total <= 6 * k,
        decreases lava@.len() - k,
    {
        let c = lava[k];
        assert(small(cube(lava@[k as int])));
        let n = count_neighbours(&c, lava, false);
        assert(count_sides(cube(c), |q: (int, int, int)| in_set(lava@, q) == false, 6) == count_sides(cube(c), open, 6)) by {
            assert((|q: (int, int, int)| in_set(lava@, q) == false) =~= open);
        }
        total = total + n;
        k += 1;
    }
    total
}


/// `s` split at its first comma, without the comma.
pub open spec fn split_comma(s: Seq<u8>) -> Option<(Seq<u8>, Seq<u8>)> {
    match first_index(s, 44) {
        Some(i) => Some((s.subrange(0, i), s.subrange(i + 1, s.len() as int))),
        None => None,
    }
}

/// The cube written `x,y,z`, each coordinate at most `MAX_COORD` in absolute value.
pub open spec fn cube_text(line: Seq<u8>) -> Option<(int, int, int)> {
    match split_comma(line) {
        Some((a, r)) => match split_comma(r) {
            Some((b, c)) => match (signed_number(a), signed_number(b), signed_number(c)) {
                (Some(x), Some(y), Some(z)) => if small((x, y, z)) {
                    Some((x, y, z))
                } else {
                    None
                },
                _ => None,
            },
            None => None,
        },
        None => None,
    }
}

/// The cubes of the lines `ls`, each kept once, in order of first appearance; `None` when
/// a line is not a cube.
pub open spec fn cubes_text(ls: Seq<Seq<u8>>) -> Option<Seq<(int, int, int)>>
    decreases ls.len(),
{
    if ls.len() == 0 {
        Some(Seq::empty())
    } else {
        match (cubes_text(ls.drop_last()), cube_text(ls.last())) {
            (Some(cs), Some(c)) => if cs.contains(c) {
                Some(cs)
            } else {
                Some(cs.push(c))
            },
            _ => None,
        }
    }
}

fn split_at_comma(s: &[u8]) -> (r: Option<(Vec<u8>, Vec<u8>)>)
    ensures
        match r {
            Some((a, b)) => split_comma(s@) == Some((a@, b@)),
            None => split_comma(s@) is None,
        },
{
    let n = s.len();
    match find_byte(s, 44) {
        Some(i) => {
            assert(i < n);
            Some((slice_of(s, 0, i), slice_of(s, i + 1, n)))
        },
        None => None,
    }
}

fn parse_cube(line: &Vec<u8>) -> (r: Option<Point>)
    ensures
        match r {
            Some(p) => cube_text(line@) == Some(cube(p)),
            None => cube_text(line@) is None,
        },
{
    let (a, rest) = match split_at_comma(line.as_slice()) {
        Some(p) => p,
        None => {
            return None;
        },
    };
    let (b, c) = match split_at_comma(rest.as_slice()) {
        Some(p) => p,
        None => {
            return None;
        },
    };
    match (parse_i32(a.as_slice()), parse_i32(b.as_slice()), parse_i32(c.as_slice())) {
        (Some(x), Some(y), Some(z)) => {
            if -MAX_COORD <= x && x <= MAX_COORD && -MAX_COORD <= y && y <= MAX_COORD && -MAX_COORD <= z && z
                <= MAX_COORD {
                Some((x, y, z))
            } else {
                None
            }
        },
        _ => None,
    }
}

proof fn lemma_cubes_none(all: Seq<Seq<u8>>, i: int)
    requires
        0 <= i <= all.len(),
        cubes_text(all.subrange(0, i)) is None,
    ensures
        cubes_text(all) is None,
    decreases all.len() - i,
{
    if i < all.len() {
        assert(all.subrange(0, i + 1).drop_last() =~= all.subrange(0, i));
        lemma_cubes_none(all, i + 1);
    } else {
        assert(all.subrange(0, i) =~= all);
    }
}

/// The cubes listed one `x,y,z` per line of `input`, each once; `None` when a line is not a
/// cube with coordinates of at most `MAX_COORD` in absolute value.
pub fn generator(input: &str) -> (r: Option<Vec<Point>>)
    ensures
        match r {
            Some(v) => cubes_text(text_lines(input)) == Some(v@.map_values(|p: Point| cube(p))),
            None => cubes_text(text_lines(input)) is None,
        },
{
    let rows = str_lines(input);
    let ghost all = views(rows@);
    let mut out: Vec<Point> = Vec::new();
    let mut i: usize = 0;
    while i < rows.len()
        invariant
            all == views(rows@),
            all == text_lines(input),
            i <= all.len(),
            cubes_text(all.subrange(0, i as int)) == Some(out@.map_values(|p: Point| cube(p))),
        decreases all.len() - i,
    {
        assert(all.subrange(0, i + 1).drop_last() =~= all.subrange(0, i as int));
        assert(all[i as int] == rows@[i as int]@);
        let ghost before = out@;
        match parse_cube(&rows[i]) {
            Some(p) => {
                let seen = contains(&out, p);
                proof {
                    let m = before.map_values(|p: Point| cube(p));
                    if seen {
                        let k = choose|k: int| 0 <= k < before.len() && cube(#[trigger] before[k]) == cube(p);
                        assert(m[k] == cube(p));
                    } else {
                        assert forall|k: int| 0 <= k < m.len() implies m[k] != cube(p) by {
                            assert(m[k] == cube(before[k]));
                        }
                    }
                }
                if !seen {
                    out.push(p);
                    assert(out@.map_values(|p: Point| cube(p)) =~= before.map_values(|p: Point| cube(p)).push(cube(p)));
                }
            },
            None => {
                proof {
                    lemma_cubes_none(all, i + 1);
                }
                return None;
            },
        }
        i += 1;
    }
    assert(all.subrange(0, all.len() as int) =~= all);
    Some(out)
}


/// Coordinate `a` (0, 1 or 2) of `p`.
pub open spec fn coord(p: (int, int, int), a: int) -> int {
    if a == 0 { p.0 } else if a == 1 { p.1 } else { p.2 }
}

/// The least coordinate `a` among the first `n >= 1` cubes.
pub open spec fn min_coord(lava: Seq<Point>, a: int, n: int) -> int
    decreases n,
{
    if n <= 1 {
        coord(cube(lava[0]), a)
    } else {
        let m = min_coord(lava, a, n - 1);
        let c = coord(cube(lava[n - 1]), a);
        if c < m { c } else { m }
    }
}

/// The greatest coordinate `a` among the first `n >= 1` cubes.
pub open spec fn max_coord(lava: Seq<Point>, a: int, n: int) -> int
    decreases n,
{
    if n <= 1 {
        coord(cube(lava[0]), a)
    } else {
        let m = max_coord(lava, a, n - 1);
        let c = coord(cube(lava[n - 1]), a);
        if c > m { c } else { m }
    }
}

/// The lower corner of the box one cell larger than the droplet on every side.
pub open spec fn lo(lava: Seq<Point>) -> (int, int, int) {
    let n = lava.len() as int;
    (min_coord(lava, 0, n) - 1, min_coord(lava, 1, n) - 1, min_coord(lava, 2, n) - 1)
}

/// The upper corner of that box.
pub open spec fn hi(lava: Seq<Point>) -> (int, int, int) {
    let n = lava.len() as int;
    (max_coord(lava, 0, n) + 1, max_coord(lava, 1, n) + 1, max_coord(lava, 2, n) + 1)
}

pub open spec fn in_box3(p: (int, int, int), l: (int, int, int), h: (int, int, int)) -> bool {
    l.0 <= p.0 <= h.0 && l.1 <= p.1 <= h.1 && l.2 <= p.2 <= h.2
}

/// Air inside the box.
pub open spec fn open_cell(lava: Seq<Point>, p: (int, int, int)) -> bool {
    in_box3(p, lo(lava), hi(lava)) && !in_set(lava, p)
}

/// Air reached from the lower corner in at most `k` steps through air of the box.
pub open spec fn reach(lava: Seq<Point>, k: nat, p: (int, int, int)) -> bool
    decreases k,
{
    if p == lo(lava) {
        true
    } else if k == 0 {
        false
    } else {
        open_cell(lava, p) && (reach(lava, (k - 1) as nat, nbr(p, 0)) || reach(lava, (k - 1) as nat, nbr(p, 1))
            || reach(lava, (k - 1) as nat, nbr(p, 2)) || reach(lava, (k - 1) as nat, nbr(p, 3)) || reach(
            lava,
            (k - 1) as nat,
            nbr(p, 4),
        ) || reach(lava, (k - 1) as nat, nbr(p, 5)))
    }
}

/// Air outside the droplet: reachable from the corner of the box.
pub open spec fn exterior(lava: Seq<Point>, p: (int, int, int)) -> bool {
    exists|k: nat| #[trigger] reach(lava, k, p)
}

/// The faces of `lava` that outside air touches.
pub open spec fn outer_surface(lava: Seq<Point>) -> nat {
    faces(lava, |q: (int, int, int)| exterior(lava, q), lava.len() as int)
}

/// The box cell `p` as an index of `0 .. volume`.
pub open spec fn box_index(p: (int, int, int), l: (int, int, int), h: (int, int, int)) -> int {
    let dy = h.1 - l.1 + 1;
    let dz = h.2 - l.2 + 1;
    ((p.0 - l.0) * dy + (p.1 - l.1)) * dz + (p.2 - l.2)
}

pub open spec fn volume(l: (int, int, int), h: (int, int, int)) -> int {
    (h.0 - l.0 + 1) * (h.1 - l.1 + 1) * (h.2 - l.2 + 1)
}

proof fn lemma_box_index(p: (int, int, int), q: (int, int, int), l: (int, int, int), h: (int, int, int))
    requires
        in_box3(p, l, h),
        in_box3(q, l, h),
    ensures
        0 <= box_index(p, l, h) < volume(l, h),
        box_index(p, l, h) == box_index(q, l, h) ==> p == q,
{
    let dy = h.1 - l.1 + 1;
    let dz = h.2 - l.2 + 1;
    let dx = h.0 - l.0 + 1;
    let xp = (p.0 - l.0) * dy + (p.1 - l.1);
    let xq = (q.0 - l.0) * dy + (q.1 - l.1);
    assert(0 <= xp < dx * dy) by (nonlinear_arith)
        requires
            xp == (p.0 - l.0) * dy + (p.1 - l.1),
            0 <= p.0 - l.0 < dx,
            0 <= p.1 - l.1 < dy,
    ;
    assert(0 <= xq < dx * dy) by (nonlinear_arith)
        requires
            xq == (q.0 - l.0) * dy + (q.1 - l.1),
            0 <= q.0 - l.0 < dx,
            0 <= q.1 - l.1 < dy,
    ;
    assert(0 <= xp * dz + (p.2 - l.2) < dx * dy * dz) by (nonlinear_arith)
        requires
            0 <= xp < dx * dy,
            0 <= p.2 - l.2 < dz,
    ;
    if box_index(p, l, h) == box_index(q, l, h) {
        vstd::arithmetic::div_mod::lemma_fundamental_div_mod_converse(box_index(p, l, h), dz, xp, p.2 - l.2);
        vstd::arithmetic::div_mod::lemma_fundamental_div_mod_converse(box_index(q, l, h), dz, xq, q.2 - l.2);
        vstd::arithmetic::div_mod::lemma_fundamental_div_mod_converse(xp, dy, p.0 - l.0, p.1 - l.1);
        vstd::arithmetic::div_mod::lemma_fundamental_div_mod_converse(xq, dy, q.0 - l.0, q.1 - l.1);
    }
}

/// A queue of distinct box cells is no longer than the box's volume.
proof fn lemma_queue_bound(queue: Seq<Point>, l: (int, int, int), h: (int, int, int))
    requires
        forall|i: int, j: int| 0 <= i < j < queue.len() ==> cube(queue[i]) != cube(queue[j]),
        forall|i: int| 0 <= i < queue.len() ==> in_box3(cube(#[trigger] queue[i]), l, h),
    ensures
        queue.len() > 0 ==> queue.len() <= volume(l, h),
{
    if queue.len() == 0 {
        return;
    }
    lemma_box_index(cube(queue[0]), cube(queue[0]), l, h);
    let idx = queue.map_values(|p: Point| box_index(cube(p), l, h));
    assert forall|i: int, j: int| 0 <= i < idx.len() && 0 <= j < idx.len() && i != j implies idx[i] != idx[j] by {
        lemma_box_index(cube(queue[i]), cube(queue[j]), l, h);
        if i < j {
            assert(cube(queue[i]) != cube(queue[j]));
        } else {
            assert(cube(queue[j]) != cube(queue[i]));
        }
    }
    idx.unique_seq_to_set();
    let range = set_int_range(0, volume(l, h));
    lemma_int_range(0, volume(l, h));
    assert forall|x: int| idx.to_set().contains(x) implies range.contains(x) by {
        let k = choose|k: int| 0 <= k < idx.len() && idx[k] == x;
        lemma_box_index(cube(queue[k]), cube(queue[k]), l, h);
    }
    lemma_len_subset(idx.to_set(), range);
}


proof fn lemma_nbr_back(p: (int, int, int), i: int)
    requires
        0 <= i < 6,
    ensures
        nbr(nbr(p, i), opposite(i)) == p,
        0 <= opposite(i) < 6,
{
}

/// Cubes at least 2 inside the coordinate limit, so that the box around them and its
/// neighbours stay within it.
pub open spec fn inner(p: (int, int, int)) -> bool {
    -(MAX_COORD - 2) <= p.0 <= MAX_COORD - 2 && -(MAX_COORD - 2) <= p.1 <= MAX_COORD - 2 && -(MAX_COORD - 2) <= p.2
        <= MAX_COORD - 2
}

proof fn lemma_min_max(lava: Seq<Point>, a: int, n: int)
    requires
        1 <= n <= lava.len(),
        forall|k: int| 0 <= k < lava.len() ==> inner(cube(#[trigger] lava[k])),
    ensures
        -(MAX_COORD - 2) <= min_coord(lava, a, n) <= max_coord(lava, a, n) <= MAX_COORD - 2,
        forall|k: int| 0 <= k < n ==> min_coord(lava, a, n) <= #[trigger] coord(cube(lava[k]), a) <= max_coord(lava, a, n),
    decreases n,
{
    assert(inner(cube(lava[n - 1])));
    if n > 1 {
        lemma_min_max(lava, a, n - 1);
    }
}

proof fn lemma_faces_same(lava: Seq<Point>, f: spec_fn((int, int, int)) -> bool, g: spec_fn((int, int, int)) -> bool, n: int)
    requires
        forall|q: (int, int, int)| #[trigger] f(q) == g(q),
        n <= lava.len(),
    ensures
        faces(lava, f, n) == faces(lava, g, n),
    decreases n,
{
    if n > 0 {
        lemma_faces_same(lava, f, g, n - 1);
        lemma_sides_same(cube(lava[n - 1]), f, g, 6);
    }
}

proof fn lemma_sides_same(c: (int, int, int), f: spec_fn((int, int, int)) -> bool, g: spec_fn((int, int, int)) -> bool, i: int)
    requires
        forall|q: (int, int, int)| #[trigger] f(q) == g(q),
    ensures
        count_sides(c, f, i) == count_sides(c, g, i),
    decreases i,
{
    if i > 0 {
        lemma_sides_same(c, f, g, i - 1);
        assert(f(nbr(c, i - 1)) == g(nbr(c, i - 1)));
    }
}

/// Whether `p` lies in the box from `l` to `h`.
fn inside(point: &Point, lower_bound: &Point, upper_bound: &Point) -> (r: bool)
    ensures
        r == in_box3(cube(*point), cube(*lower_bound), cube(*upper_bound)),
{
    lower_bound.0 <= point.0 && point.0 <= upper_bound.0 && lower_bound.1 <= point.1 && point.1 <= upper_bound.1
        && lower_bound.2 <= point.2 && point.2 <= upper_bound.2
}

/// The faces of the droplet that outside air reaches: air cells of the box one larger
/// than the droplet that are reached from its corner, searched breadth first.
pub fn part2(lava: &Vec<Point>) -> (r: usize)
    requires
        lava@.len() >= 1,
        forall|k: int| 0 <= k < lava@.len() ==> inner(cube(#[trigger] lava@[k])),
        lava@.len() * 6 <= usize::MAX,
    ensures
        r == outer_surface(lava@),
{
    let ghost ls = lava@;
    let first = lava[0];
    let mut low: Point = first;
    let mut high: Point = first;
    let mut k: usize = 1;
    while k < lava.len()
        invariant
            ls == lava@,
            1 <= k <= ls.len(),
            cube(low) == (min_coord(ls, 0, k as int), min_coord(ls, 1, k as int), min_coord(ls, 2, k as int)),
            cube(high) == (max_coord(ls, 0, k as int), max_coord(ls, 1, k as int), max_coord(ls, 2, k as int)),
        decreases ls.len() - k,
    {
        let c = lava[k];
        low = (if c.0 < low.0 { c.0 } else { low.0 }, if c.1 < low.1 { c.1 } else { low.1 }, if c.2 < low.2 { c.2 } else { low.2 });
        high = (if c.0 > high.0 { c.0 } else { high.0 }, if c.1 > high.1 { c.1 } else { high.1 }, if c.2 > high.2 { c.2 } else { high.2 });
        k += 1;
    }
    proof {
        lemma_min_max(ls, 0, ls.len() as int);
        lemma_min_max(ls, 1, ls.len() as int);
        lemma_min_max(ls, 2, ls.len() as int);
    }
    let lower: Point = (low.0 - 1, low.1 - 1, low.2 - 1);
    let upper: Point = (high.0 + 1, high.1 + 1, high.2 + 1);
    assert(cube(lower) == lo(ls) && cube(upper) == hi(ls));
    let ghost vol = volume(lo(ls), hi(ls));
    let mut queue: Vec<Point> = vec![lower];
    let ghost mut dist: Seq<nat> = seq![0nat];
    let mut head: usize = 0;
    proof {
        assert(in_box3(cube(queue@[0]), lo(ls), hi(ls)));
        lemma_queue_bound(queue@, lo(ls), hi(ls));
    }
    while head < queue.len()
        invariant
            ls == lava@,
            forall|k: int| 0 <= k < ls.len() ==> inner(cube(#[trigger] ls[k])),
            cube(lower) == lo(ls),
            cube(upper) == hi(ls),
            small(lo(ls)) && small(hi(ls)),
            -(MAX_COORD - 1) <= lo(ls).0 && -(MAX_COORD - 1) <= lo(ls).1 && -(MAX_COORD - 1) <= lo(ls).2,
            hi(ls).0 <= MAX_COORD - 1 && hi(ls).1 <= MAX_COORD - 1 && hi(ls).2 <= MAX_COORD - 1,
            vol == volume(lo(ls), hi(ls)),
            queue@.len() >= 1,
            cube(queue@[0]) == lo(ls),
            head <= queue@.len(),
            queue@.len() <= vol,
            forall|j: int| 0 <= j < queue@.len() ==> in_box3(cube(#[trigger] queue@[j]), lo(ls), hi(ls)),
            forall|i: int, j: int| 0 <= i < j < queue@.len() ==> cube(queue@[i]) != cube(queue@[j]),
            dist.len() == queue@.len(),
            forall|j: int| 0 <= j < queue@.len() ==> reach(ls, dist[j], cube(#[trigger] queue@[j])),
            forall|j: int, i: int|
                0 <= j < head && 0 <= i < 6 && #[trigger] open_cell(ls, nbr(cube(queue@[j]), i)) ==> in_set(
                    queue@,
                    nbr(cube(queue@[j]), i),
                ),
        decreases vol - head,
    {
        let cur = queue[head];
        assert(in_box3(cube(queue@[head as int]), lo(ls), hi(ls)));
        let ns = neighbors(&cur);
        let mut i: usize = 0;
        while i < 6
            invariant
                ls == lava@,
                forall|k: int| 0 <= k < ls.len() ==> inner(cube(#[trigger] ls[k])),
                cube(lower) == lo(ls),
                cube(upper) == hi(ls),
                vol == volume(lo(ls), hi(ls)),
                queue@.len() >= 1,
                cube(queue@[0]) == lo(ls),
                head < queue@.len(),
                queue@.len() <= vol,
                cur == queue@[head as int],
                ns@.len() == 6,
                forall|t: int| 0 <= t < 6 ==> cube(#[trigger] ns@[t]) == nbr(cube(cur), t),
                i <= 6,
                forall|j: int| 0 <= j < queue@.len() ==> in_box3(cube(#[trigger] queue@[j]), lo(ls), hi(ls)),
                forall|a: int, b: int| 0 <= a < b < queue@.len() ==> cube(queue@[a]) != cube(queue@[b]),
                dist.len() == queue@.len(),
                forall|j: int| 0 <= j < queue@.len() ==> reach(ls, dist[j], cube(#[trigger] queue@[j])),
                forall|j: int, t: int|
                    0 <= j < head && 0 <= t < 6 && #[trigger] open_cell(ls, nbr(cube(queue@[j]), t)) ==> in_set(
                        queue@,
                        nbr(cube(queue@[j]), t),
                    ),
                forall|t: int| 0 <= t < i && #[trigger] open_cell(ls, nbr(cube(cur), t)) ==> in_set(queue@, nbr(cube(cur), t)),
            decreases 6 - i,
        {
            let q = ns[i];
            assert(cube(q) == nbr(cube(cur), i as int));
            if inside(&q, &lower, &upper) && !contains(lava, q) && !contains(&queue, q) {
                let ghost before = queue@;
                let ghost d = dist[head as int];
                queue.push(q);
                proof {
                    dist = dist.push(d + 1);
                    lemma_nbr_back(cube(q), i as int);
                    let back = opposite(i as int);
                    assert(nbr(cube(q), back) == cube(cur));
                    assert(reach(ls, d, cube(cur)));
                    assert(open_cell(ls, cube(q)));
                    assert(reach(ls, (d + 1) as nat, cube(q)));
                    assert(in_set(queue@, cube(q))) by {
                        assert(cube(queue@[before.len() as int]) == cube(q));
                    }
                    assert forall|j: int| 0 <= j < queue@.len() implies reach(ls, dist[j], cube(#[trigger] queue@[j])) by {
                        if j < before.len() {
                            assert(queue@[j] == before[j]);
                        }
                    }
                    assert forall|p: (int, int, int)| in_set(before, p) implies in_set(queue@, p) by {
                        let w = choose|w: int| 0 <= w < before.len() && cube(#[trigger] before[w]) == p;
                        assert(queue@[w] == before[w]);
                    }
                    assert forall|a: int, b: int| 0 <= a < b < queue@.len() implies cube(queue@[a]) != cube(queue@[b]) by {
                        if b == before.len() {
                            assert(queue@[a] == before[a]);
                            assert(!in_set(before, cube(q)));
                        } else {
                            assert(queue@[a] == before[a]);
                            assert(queue@[b] == before[b]);
                        }
                    }
                    lemma_queue_bound(queue@, lo(ls), hi(ls));
                }
            }
            i += 1;
        }
        head += 1;
    }
    // Every cell the corner's air reaches is in the queue.
    proof {
        assert forall|kk: nat, p: (int, int, int)| #[trigger] reach(ls, kk, p) implies in_set(queue@, p) by {
            lemma_reach_in_queue(ls, queue@, kk, p);
        }
        assert forall|p: (int, int, int)| #[trigger] in_set(queue@, p) == exterior(ls, p) by {
            if in_set(queue@, p) {
                let j = choose|j: int| 0 <= j < queue@.len() && cube(#[trigger] queue@[j]) == p;
                assert(reach(ls, dist[j], p));
            }
            if exterior(ls, p) {
                let kk = choose|kk: nat| #[trigger] reach(ls, kk, p);
                lemma_reach_in_queue(ls, queue@, kk, p);
            }
        }
    }
    let ghost in_queue = |q: (int, int, int)| in_set(queue@, q) == true;
    let ghost outside = |q: (int, int, int)| exterior(ls, q);
    let mut total: usize = 0;
    let mut k: usize = 0;
    while k < lava.len()
        invariant
            ls == lava@,
            forall|j: int| 0 <= j < ls.len() ==> inner(cube(#[trigger] ls[j])),
            ls.len() * 6 <= usize::MAX,
            in_queue == (|q: (int, int, int)| in_set(queue@, q) == true),
            k <= ls.len(),
            total == faces(ls, in_queue, k as int),
            total <= 6 * k,
        decreases ls.len() - k,
    {
        let c = lava[k];
        assert(inner(cube(ls[k as int])));
        let n = count_neighbours(&c, &queue, true);
        total = total + n;
        k += 1;
    }
    proof {
        assert forall|q: (int, int, int)| #[trigger] in_queue(q) == outside(q) by {
            assert(in_set(queue@, q) == exterior(ls, q));
        }
        lemma_faces_same(ls, in_queue, outside, ls.len() as int);
    }
    total
}

/// With the queue closed (every open neighbour of a queued cell queued) and holding the
/// corner, every cell reached from the corner is queued.
proof fn lemma_reach_in_queue(ls: Seq<Point>, queue: Seq<Point>, k: nat, p: (int, int, int))
    requires
        queue.len() >= 1,
        cube(queue[0]) == lo(ls),
        forall|j: int, i: int|
            0 <= j < queue.len() && 0 <= i < 6 && #[trigger] open_cell(ls, nbr(cube(queue[j]), i)) ==> in_set(
                queue,
                nbr(cube(queue[j]), i),
            ),
        reach(ls, k, p),
    ensures
        in_set(queue, p),
    decreases k,
{
    if p == lo(ls) {
        assert(cube(queue[0]) == p);
    } else {
        let i: int = if reach(ls, (k - 1) as nat, nbr(p, 0)) {
            0
        } else if reach(ls, (k - 1) as nat, nbr(p, 1)) {
            1
        } else if reach(ls, (k - 1) as nat, nbr(p, 2)) {
            2
        } else if reach(ls, (k - 1) as nat, nbr(p, 3)) {
            3
        } else if reach(ls, (k - 1) as nat, nbr(p, 4)) {
            4
        } else {
            5
        };
        lemma_reach_in_queue(ls, queue, (k - 1) as nat, nbr(p, i));
        let j = choose|j: int| 0 <= j < queue.len() && cube(#[trigger] queue[j]) == nbr(p, i);
        lemma_nbr_back(p, i);
        assert(nbr(cube(queue[j]), opposite(i)) == p);
        assert(open_cell(ls, nbr(cube(queue[j]), opposite(i))));
    }
}

} // verus!
