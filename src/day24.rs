//! Shortest crossing of a valley whose blizzards move one cell per tick and
//! wrap around the interior, searched over (position, tick) states.
use vstd::prelude::*;
use crate::text::{find_byte, first_index, str_lines, string_of, text_lines, views};

verus! {

/// The heading of a blizzard.
#[derive(Clone, Copy, Debug, PartialEq, Eq)]
pub enum Direction {
    Right,
    Down,
    Left,
    Up,
}

/// A blizzard: its cell in the interior and its fixed heading.
#[derive(Clone, Copy, Debug, PartialEq, Eq)]
pub struct Blizzard {
    pub row: i32,
    pub col: i32,
    pub heading: Direction,
}

/// The largest height or width of an interior that a valley may have.
pub const MAX_SIDE: i32 = 1000;

/// Where a blizzard at `p` moves in one tick on an `h` by `w` interior:
/// one cell along its heading, wrapping from a boundary cell to the opposite one.
pub open spec fn stepped(p: (int, int), d: Direction, h: int, w: int) -> (int, int) {
    match d {
        Direction::Right => if p.1 == w - 1 { (p.0, 0) } else { (p.0, p.1 + 1) },
        Direction::Down => if p.0 == h - 1 { (0, p.1) } else { (p.0 + 1, p.1) },
        Direction::Left => if p.1 == 0 { (p.0, w - 1) } else { (p.0, p.1 - 1) },
        Direction::Up => if p.0 == 0 { (h - 1, p.1) } else { (p.0 - 1, p.1) },
    }
}

/// The cell of blizzard `b` after `t` ticks.
pub open spec fn pos_at(b: Blizzard, h: int, w: int, t: nat) -> (int, int)
    decreases t,
{
    if t == 0 {
        bpos(b)
    } else {
        stepped(pos_at(b, h, w, (t - 1) as nat), b.heading, h, w)
    }
}

/// The cell a blizzard stands on.
pub open spec fn bpos(b: Blizzard) -> (int, int) {
    (b.row as int, b.col as int)
}

pub open spec fn in_box(p: (int, int), h: int, w: int) -> bool {
    0 <= p.0 < h && 0 <= p.1 < w
}

/// A step from an interior cell stays in the interior.
pub proof fn lemma_stepped_in_box(p: (int, int), d: Direction, h: int, w: int)
    requires
        in_box(p, h, w),
    ensures
        in_box(stepped(p, d, h, w), h, w),
{
}

/// Every position of a blizzard that starts in the interior lies in the interior.
pub proof fn lemma_pos_in_box(b: Blizzard, h: int, w: int, t: nat)
    requires
        in_box(bpos(b), h, w),
    ensures
        in_box(pos_at(b, h, w, t), h, w),
    decreases t,
{
    if t > 0 {
        lemma_pos_in_box(b, h, w, (t - 1) as nat);
        lemma_stepped_in_box(pos_at(b, h, w, (t - 1) as nat), b.heading, h, w);
    }
}

/// Moves a blizzard one cell along its heading, wrapping inside an `h` by `w` interior.
pub fn move_blizzard(b: &Blizzard, h: i32, w: i32) -> (r: Blizzard)
    requires
        in_box(bpos(*b), h as int, w as int),
    ensures
        r.heading == b.heading,
        bpos(r) == stepped(bpos(*b), b.heading, h as int, w as int),
{
    let (row, col) = match b.heading {
        Direction::Right => if b.col == w - 1 { (b.row, 0) } else { (b.row, b.col + 1) },
        Direction::Down => if b.row == h - 1 { (0, b.col) } else { (b.row + 1, b.col) },
        Direction::Left => if b.col == 0 { (b.row, w - 1) } else { (b.row, b.col - 1) },
        Direction::Up => if b.row == 0 { (h - 1, b.col) } else { (b.row - 1, b.col) },
    };
    Blizzard { row, col, heading: b.heading }
}


/// A valley at tick 0: an `height` by `width` interior whose rows run from 0 at the top,
/// an entrance one row above the interior and an exit one row below it, and the blizzards.
pub struct State {
    pub height: i32,
    pub width: i32,
    pub start: (i32, i32),
    pub end: (i32, i32),
    pub blizzards: Vec<Blizzard>,
}

/// Why a valley was refused.
#[derive(Clone, Copy, Debug, PartialEq, Eq)]
pub enum ValleyError {
    /// The interior is empty or larger than `MAX_SIDE` on a side.
    BadDimensions,
    /// The entrance or the exit is not beside the interior's top or bottom row.
    BadEndpoint,
    /// A blizzard starts outside the interior.
    BlizzardOutside,
}

pub open spec fn pt(p: (i32, i32)) -> (int, int) {
    (p.0 as int, p.1 as int)
}

impl State {
    pub open spec fn h(&self) -> int {
        self.height as int
    }

    pub open spec fn w(&self) -> int {
        self.width as int
    }

    pub open spec fn interior(&self, p: (int, int)) -> bool {
        in_box(p, self.h(), self.w())
    }

    pub open spec fn wf(&self) -> bool {
        &&& 1 <= self.height <= MAX_SIDE
        &&& 1 <= self.width <= MAX_SIDE
        &&& self.start.0 == -1 && 0 <= self.start.1 < self.width
        &&& self.end.0 == self.height && 0 <= self.end.1 < self.width
        &&& forall|k: int|
            0 <= k < self.blizzards@.len() ==> #[trigger] self.interior(
                bpos(self.blizzards@[k]),
            )
    }

    /// The cell of blizzard `k` at tick `t`.
    pub open spec fn blizzard_at(&self, k: int, t: nat) -> (int, int) {
        pos_at(self.blizzards@[k], self.h(), self.w(), t)
    }

    /// Whether some blizzard stands on `p` at tick `t`.
    pub open spec fn occupied(&self, t: nat, p: (int, int)) -> bool {
        exists|k: int| 0 <= k < self.blizzards@.len() && #[trigger] self.blizzard_at(k, t) == p
    }

    /// The cells a traveller may be on: the interior, the entrance and the exit.
    pub open spec fn is_place(&self, p: (int, int)) -> bool {
        p == pt(self.start) || p == pt(self.end) || self.interior(p)
    }

    /// Whether a traveller may be on `p` at tick `t`.
    pub open spec fn can_stand(&self, t: nat, p: (int, int)) -> bool {
        p == pt(self.start) || p == pt(self.end) || (self.interior(p) && !self.occupied(t, p))
    }

    /// Builds a valley, refusing one with an empty or oversized interior, misplaced
    /// endpoints or a blizzard outside the interior.
    pub fn new(height: i32, width: i32, start_col: i32, end_col: i32, blizzards: Vec<Blizzard>) -> (r:
        Result<State, ValleyError>)
        ensures
            match r {
                Ok(st) => st.wf() && st.height == height && st.width == width && st.start == (-1i32, start_col)
                    && st.end == (height, end_col) && st.blizzards@ == blizzards@,
                Err(e) => {
                    &&& e is BadDimensions <==> !(1 <= height <= MAX_SIDE && 1 <= width <= MAX_SIDE)
                    &&& e is BadEndpoint <==> (1 <= height <= MAX_SIDE && 1 <= width <= MAX_SIDE) && !(0
                        <= start_col < width && 0 <= end_col < width)
                    &&& e is BlizzardOutside <==> (1 <= height <= MAX_SIDE && 1 <= width <= MAX_SIDE)
                        && (0 <= start_col < width && 0 <= end_col < width) && exists|k: int|
                        0 <= k < blizzards@.len() && !in_box(
                            bpos(#[trigger] blizzards@[k]),
                            height as int,
                            width as int,
                        )
                },
            },
    {
        if !(1 <= height && height <= MAX_SIDE && 1 <= width && width <= MAX_SIDE) {
            return Err(ValleyError::BadDimensions);
        }
        if !(0 <= start_col && start_col < width && 0 <= end_col && end_col < width) {
            return Err(ValleyError::BadEndpoint);
        }
        let mut k: usize = 0;
        while k < blizzards.len()
            invariant
                1 <= height <= MAX_SIDE && 1 <= width <= MAX_SIDE,
                0 <= start_col < width && 0 <= end_col < width,
                k <= blizzards@.len(),
                forall|j: int|
                    0 <= j < k ==> in_box(
                        bpos(#[trigger] blizzards@[j]),
                        height as int,
                        width as int,
                    ),
            decreases blizzards@.len() - k,
        {
            let b = &blizzards[k];
            if !(0 <= b.row && b.row < height && 0 <= b.col && b.col < width) {
                assert(!in_box(
                    bpos(blizzards@[k as int]),
                    height as int,
                    width as int,
                ));
                assert(exists|j: int|
                    0 <= j < blizzards@.len() && !in_box(
                        bpos(#[trigger] blizzards@[j]),
                        height as int,
                        width as int,
                    ));
                return Err(ValleyError::BlizzardOutside);
            }
            k += 1;
        }
        Ok(State { height, width, start: (-1, start_col), end: (height, end_col), blizzards })
    }

    /// Moves a blizzard of this valley forward one tick.
    pub fn move_blizzard(&self, b: &Blizzard) -> (r: Blizzard)
        requires
            self.wf(),
            self.interior(bpos(*b)),
        ensures
            r.heading == b.heading,
            bpos(r) == stepped(bpos(*b), b.heading, self.h(), self.w()),
    {
        move_blizzard(b, self.height, self.width)
    }
}

impl State {
    /// `occ` is the row-major bitmap of the interior cells covered at tick `t`.
    pub open spec fn is_slice(&self, t: nat, occ: Seq<bool>) -> bool {
        &&& occ.len() == self.h() * self.w()
        &&& forall|i: int| 0 <= i < self.h() * self.w() ==> #[trigger] occ[i] == self.occupied(t, cell(self.w(), i))
    }
}

/// The cell that index `i` of a row-major `w`-wide bitmap stands for.
pub open spec fn cell(w: int, i: int) -> (int, int) {
    (i / w, i % w)
}

proof fn lemma_cell_index(h: int, w: int, r: int, c: int)
    requires
        0 <= r < h,
        0 <= c < w,
    ensures
        0 <= r * w + c < h * w,
        cell(w, r * w + c) == (r, c),
        forall|i: int| 0 <= i < h * w && cell(w, i) == (r, c) ==> i == r * w + c,
{
    assert(0 <= r * w + c < h * w) by (nonlinear_arith)
        requires
            0 <= r < h,
            0 <= c < w,
    ;
    assert(h <= MAX_SIDE && w <= MAX_SIDE ==> h * w <= MAX_SIDE * MAX_SIDE) by (nonlinear_arith)
        requires
            0 <= r < h,
            0 <= c < w,
    ;
    vstd::arithmetic::div_mod::lemma_fundamental_div_mod_converse(r * w + c, w, r, c);
    assert forall|i: int| 0 <= i < h * w && cell(w, i) == (r, c) implies i == r * w + c by {
        vstd::arithmetic::div_mod::lemma_fundamental_div_mod(i, w);
        assert(w * r == r * w) by (nonlinear_arith);
    }
}

proof fn lemma_cell_in_box(h: int, w: int, i: int)
    requires
        0 < w,
        0 <= i < h * w,
    ensures
        in_box(cell(w, i), h, w),
{
    vstd::arithmetic::div_mod::lemma_fundamental_div_mod(i, w);
    assert(i / w < h) by (nonlinear_arith)
        requires
            0 <= i < h * w,
            i == w * (i / w) + i % w,
            0 <= i % w < w,
    ;
    assert(0 <= i / w) by (nonlinear_arith)
        requires
            0 <= i,
            0 < w,
    ;
}

/// The row-major bitmap of an `h` by `w` interior with a cell set wherever a blizzard stands.
fn occupancy(h: i32, w: i32, blizzards: &Vec<Blizzard>) -> (r: Vec<bool>)
    requires
        1 <= h <= MAX_SIDE,
        1 <= w <= MAX_SIDE,
        forall|k: int|
            0 <= k < blizzards@.len() ==> #[trigger] in_box(
                bpos(blizzards@[k]),
                h as int,
                w as int,
            ),
    ensures
        r@.len() == h * w,
        forall|i: int|
            0 <= i < h * w ==> (r@[i] <==> exists|k: int|
                0 <= k < blizzards@.len() && bpos(#[trigger] blizzards@[k]) == cell(
                    w as int,
                    i,
                )),
{
    assert(0 <= h * w <= MAX_SIDE * MAX_SIDE) by (nonlinear_arith)
        requires
            1 <= h <= MAX_SIDE,
            1 <= w <= MAX_SIDE,
    ;
    let n: usize = (h as usize) * (w as usize);
    let mut r: Vec<bool> = Vec::new();
    let mut i: usize = 0;
    while i < n
        invariant
            n == h * w,
            i <= n,
            r@.len() == i,
            forall|j: int| 0 <= j < i ==> !r@[j],
        decreases n - i,
    {
        r.push(false);
        i += 1;
    }
    let mut k: usize = 0;
    while k < blizzards.len()
        invariant
            1 <= h <= MAX_SIDE,
            1 <= w <= MAX_SIDE,
            n == h * w,
            k <= blizzards@.len(),
            r@.len() == n,
            forall|j: int|
                0 <= j < blizzards@.len() ==> #[trigger] in_box(
                    bpos(blizzards@[j]),
                    h as int,
                    w as int,
                ),
            forall|i: int|
                0 <= i < h * w ==> (r@[i] <==> exists|j: int|
                    0 <= j < k && bpos(#[trigger] blizzards@[j]) == cell(
                        w as int,
                        i,
                    )),
        decreases blizzards@.len() - k,
    {
        let b = blizzards[k];
        assert(in_box(bpos(blizzards@[k as int]), h as int, w as int));
        proof {
            lemma_cell_index(h as int, w as int, b.row as int, b.col as int);
        }
        let idx: usize = (b.row as usize) * (w as usize) + (b.col as usize);
        r.set(idx, true);
        assert forall|i: int|
            0 <= i < h * w implies (r@[i] <==> exists|j: int|
                0 <= j < k + 1 && bpos(#[trigger] blizzards@[j]) == cell(
                    w as int,
                    i,
                )) by {
            if i == idx as int {
                assert(bpos(blizzards@[k as int]) == cell(w as int, i));
            } else {
                if exists|j: int|
                    0 <= j < k + 1 && bpos(#[trigger] blizzards@[j]) == cell(
                        w as int,
                        i,
                    ) {
                    let j = choose|j: int|
                        0 <= j < k + 1 && bpos(#[trigger] blizzards@[j])
                            == cell(w as int, i);
                    assert(j != k);
                }
            }
        }
        k += 1;
    }
    r
}


/// The blizzards of a valley at one tick, and the cells they cover as a row-major bitmap.
struct TimeSlice {
    blizzards: Vec<Blizzard>,
    occupied: Vec<bool>,
}

impl TimeSlice {
    spec fn matches(&self, st: State, t: nat) -> bool {
        &&& self.blizzards@.len() == st.blizzards@.len()
        &&& forall|k: int|
            0 <= k < self.blizzards@.len() ==> bpos(#[trigger] self.blizzards@[k])
                == st.blizzard_at(k, t) && self.blizzards@[k].heading == st.blizzards@[k].heading
        &&& self.occupied@.len() == st.h() * st.w()
        &&& forall|i: int| 0 <= i < st.h() * st.w() ==> #[trigger] self.occupied@[i] == st.occupied(t, cell(st.w(), i))
    }

    /// The slice whose blizzards are `blizzards`, which stand where those of `st` do at tick `t`.
    fn with_blizzards(st: &State, blizzards: Vec<Blizzard>, Ghost(t): Ghost<nat>) -> (r: TimeSlice)
        requires
            st.wf(),
            blizzards@.len() == st.blizzards@.len(),
            forall|k: int|
                0 <= k < blizzards@.len() ==> bpos(#[trigger] blizzards@[k])
                    == st.blizzard_at(k, t) && blizzards@[k].heading == st.blizzards@[k].heading,
        ensures
            r.matches(*st, t),
    {
        assert forall|k: int| 0 <= k < blizzards@.len() implies #[trigger] in_box(
            bpos(blizzards@[k]),
            st.height as int,
            st.width as int,
        ) by {
            assert(st.interior(bpos(st.blizzards@[k])));
            lemma_pos_in_box(st.blizzards@[k], st.h(), st.w(), t);
        }
        let occupied = occupancy(st.height, st.width, &blizzards);
        assert forall|i: int| 0 <= i < st.h() * st.w() implies #[trigger] occupied@[i] == st.occupied(
            t,
            cell(st.w(), i),
        ) by {
            if occupied@[i] {
                let k = choose|k: int|
                    0 <= k < blizzards@.len() && bpos(#[trigger] blizzards@[k])
                        == cell(st.w(), i);
                assert(st.blizzard_at(k, t) == cell(st.w(), i));
            }
            if st.occupied(t, cell(st.w(), i)) {
                let k = choose|k: int|
                    0 <= k < st.blizzards@.len() && #[trigger] st.blizzard_at(k, t) == cell(st.w(), i);
                assert(bpos(blizzards@[k]) == cell(st.w(), i));
            }
        }
        TimeSlice { blizzards, occupied }
    }

    /// The slice of tick 0.
    fn first(st: &State) -> (r: TimeSlice)
        requires
            st.wf(),
        ensures
            r.matches(*st, 0),
    {
        let blizzards = st.blizzards.clone();
        TimeSlice::with_blizzards(st, blizzards, Ghost(0))
    }

    /// The slice one tick after this one: every blizzard moved once.
    fn next(&self, st: &State, tick: Ghost<nat>) -> (r: TimeSlice)
        requires
            st.wf(),
            self.matches(*st, tick@),
        ensures
            r.matches(*st, tick@ + 1),
    {
        let ghost t = tick@;
        let mut blizzards: Vec<Blizzard> = Vec::new();
        let mut k: usize = 0;
        while k < self.blizzards.len()
            invariant
                st.wf(),
                self.matches(*st, t),
                k <= self.blizzards@.len(),
                blizzards@.len() == k,
                forall|j: int|
                    0 <= j < k ==> bpos(#[trigger] blizzards@[j]) == st.blizzard_at(
                        j,
                        t + 1,
                    ) && blizzards@[j].heading == st.blizzards@[j].heading,
            decreases self.blizzards@.len() - k,
        {
            proof {
                assert(st.interior(bpos(st.blizzards@[k as int])));
                lemma_pos_in_box(st.blizzards@[k as int], st.h(), st.w(), t);
                assert(bpos(self.blizzards@[k as int])
                    == st.blizzard_at(k as int, t));
            }
            let b = st.move_blizzard(&self.blizzards[k]);
            let ghost old_b = blizzards;
            assert(st.blizzard_at(k as int, t + 1) == stepped(st.blizzard_at(k as int, t), st.blizzards@[k as int].heading, st.h(), st.w()));
            blizzards.push(b);
            assert(bpos(blizzards@[k as int]) == st.blizzard_at(k as int, t + 1));
            assert(blizzards@[k as int].heading == st.blizzards@[k as int].heading);
            assert forall|j: int| 0 <= j < k + 1 implies bpos(#[trigger] blizzards@[j]) == st.blizzard_at(
                        j,
                        t + 1,
                    ) && blizzards@[j].heading == st.blizzards@[j].heading by {
                if j < k {
                    assert(blizzards@[j] == old_b@[j]);
                    assert(bpos(old_b@[j]) == st.blizzard_at(j, t + 1));
                }
            }
            k += 1;
        }
        TimeSlice::with_blizzards(st, blizzards, Ghost(t + 1))
    }
}

/// The slices of a valley for ticks `0, 1, ...` up to the latest one asked for, each
/// computed once from the one before it and kept.
pub struct SliceCache {
    slices: Vec<TimeSlice>,
}

impl SliceCache {
    /// Every kept slice is the one of its tick for valley `st`.
    pub closed spec fn wf(&self, st: State) -> bool {
        &&& self.slices@.len() >= 1
        &&& forall|t: int| 0 <= t < self.slices@.len() ==> (#[trigger] self.slices@[t]).matches(st, t as nat)
    }

    /// How many ticks have their slice computed: ticks `0 .. computed()`.
    pub closed spec fn computed(&self) -> nat {
        self.slices@.len()
    }

    /// A cache that holds the slice of tick 0 only.
    pub fn new(st: &State) -> (r: SliceCache)
        requires
            st.wf(),
        ensures
            r.wf(*st),
            r.computed() == 1,
    {
        let mut slices: Vec<TimeSlice> = Vec::new();
        slices.push(TimeSlice::first(st));
        SliceCache { slices }
    }

    /// Computes, in order, the slices of every tick up to `t` that are not kept yet.
    pub fn extend_to(&mut self, st: &State, t: usize)
        requires
            st.wf(),
            old(self).wf(*st),
        ensures
            final(self).wf(*st),
            final(self).computed() == if old(self).computed() > t { old(self).computed() as int } else { t + 1 },
            old(self).computed() > t ==> *final(self) == *old(self),
    {
        while self.slices.len() <= t
            invariant
                st.wf(),
                self.wf(*st),
                self.computed() >= old(self).computed(),
                old(self).computed() > t ==> *self == *old(self),
                self.computed() <= t + 1 || self.computed() == old(self).computed(),
            decreases t + 1 - self.slices@.len(),
        {
            let n = self.slices.len();
            assert(self.slices@[n - 1].matches(*st, (n - 1) as nat));
            let next = self.slices[n - 1].next(st, Ghost((n - 1) as nat));
            self.slices.push(next);
            assert(self.slices@[n as int].matches(*st, n as nat));
        }
    }

    /// Whether interior cell `(row, col)` is covered at tick `t`, a tick already computed.
    fn is_occupied(&self, st: &State, t: usize, row: i32, col: i32) -> (r: bool)
        requires
            st.wf(),
            self.wf(*st),
            t < self.computed(),
            st.interior((row as int, col as int)),
        ensures
            r == st.occupied(t as nat, (row as int, col as int)),
    {
        proof {
            lemma_cell_index(st.h(), st.w(), row as int, col as int);
            assert(self.slices@[t as int].matches(*st, t as nat));
        }
        assert((row as int) * (st.width as int) + (col as int) < st.h() * st.w());
        assert(st.h() * st.w() <= MAX_SIDE * MAX_SIDE) by (nonlinear_arith)
            requires
                1 <= st.h() <= MAX_SIDE,
                1 <= st.w() <= MAX_SIDE,
        ;
        assert((row as int) * (st.width as int) + (col as int) < MAX_SIDE * MAX_SIDE);
        let idx: usize = (row as usize) * (st.width as usize) + (col as usize);
        self.slices[t].occupied[idx]
    }

    /// The cells covered at tick `t`, as a row-major bitmap of the interior. Slices up to
    /// `t` are computed first where they are missing; a tick already computed is read back
    /// and the cache is left as it was.
    pub fn slice_at(&mut self, st: &State, t: usize) -> (r: Vec<bool>)
        requires
            st.wf(),
            old(self).wf(*st),
        ensures
            final(self).wf(*st),
            final(self).computed() > t,
            old(self).computed() > t ==> *final(self) == *old(self),
            st.is_slice(t as nat, r@),
    {
        self.extend_to(st, t);
        assert(self.slices@[t as int].matches(*st, t as nat));
        let occ = &self.slices[t].occupied;
        let mut r: Vec<bool> = Vec::new();
        let mut i: usize = 0;
        while i < occ.len()
            invariant
                i <= occ@.len(),
                r@ == occ@.subrange(0, i as int),
            decreases occ@.len() - i,
        {
            r.push(occ[i]);
            i += 1;
        }
        assert(r@ == occ@);
        r
    }
}


/// `q` is `p` itself or one of its four orthogonal neighbours.
pub open spec fn adjacent(q: (int, int), p: (int, int)) -> bool {
    q == p || q == (p.0 - 1, p.1) || q == (p.0 + 1, p.1) || q == (p.0, p.1 - 1) || q == (p.0, p.1 + 1)
}

/// Why a search gave up.
#[derive(Clone, Copy, Debug, PartialEq, Eq)]
pub enum SearchError {
    /// The destination cannot be reached at any tick up to the search's limit.
    NotReachableWithinLimit,
}

/// The largest tick limit that the puzzle answers use.
pub const TICK_LIMIT: usize = 20000;

impl State {
    /// Whether a traveller who is on `from` at tick `t0` can be on `p` at tick `t`, waiting
    /// or moving to an orthogonal neighbour each tick and never standing on a blizzard.
    pub open spec fn reachable(&self, from: (int, int), t0: int, p: (int, int), t: int) -> bool
        decreases t - t0,
    {
        if t < t0 {
            false
        } else if t == t0 {
            p == from
        } else {
            self.can_stand(t as nat, p) && (self.reachable(from, t0, p, t - 1) || self.reachable(
                from,
                t0,
                (p.0 - 1, p.1),
                t - 1,
            ) || self.reachable(from, t0, (p.0 + 1, p.1), t - 1) || self.reachable(from, t0, (p.0, p.1 - 1), t - 1)
                || self.reachable(from, t0, (p.0, p.1 + 1), t - 1))
        }
    }

    /// `t` is the first tick from `t0` on at which a traveller leaving `from` at `t0` can be on `to`.
    pub open spec fn arrives_first(&self, from: (int, int), to: (int, int), t0: int, t: int) -> bool {
        &&& t0 <= t
        &&& self.reachable(from, t0, to, t)
        &&& forall|u: int| t0 <= u < t ==> !#[trigger] self.reachable(from, t0, to, u)
    }

    /// The first arrival tick on `to` for a traveller leaving `from` at `t0`, when it is at
    /// most `limit`.
    pub open spec fn first_arrival(&self, from: (int, int), to: (int, int), t0: int, limit: int) -> Option<int> {
        if exists|t: int| t <= limit && #[trigger] self.arrives_first(from, to, t0, t) {
            Some(choose|t: int| t <= limit && #[trigger] self.arrives_first(from, to, t0, t))
        } else {
            None
        }
    }

    /// What a search for one leg must return: the first arrival tick, or the error when
    /// there is none up to `limit`.
    pub open spec fn leg_outcome(
        &self,
        from: (i32, i32),
        to: (i32, i32),
        t0: usize,
        limit: usize,
        r: Result<usize, SearchError>,
    ) -> bool {
        match r {
            Ok(t) => self.first_arrival(pt(from), pt(to), t0 as int, limit as int) == Some(t as int),
            Err(e) => e == SearchError::NotReachableWithinLimit && self.first_arrival(
                pt(from),
                pt(to),
                t0 as int,
                limit as int,
            ) is None,
        }
    }
}

/// A cell a traveller can reach is a place of the valley: the entrance, the exit or an
/// interior cell.
pub proof fn lemma_reachable_is_place(st: State, from: (int, int), t0: int, p: (int, int), t: int)
    requires
        st.is_place(from),
        st.reachable(from, t0, p, t),
    ensures
        st.is_place(p),
{
}

/// At most one tick is the first arrival.
pub proof fn lemma_arrival_unique(st: State, from: (int, int), to: (int, int), t0: int, a: int, b: int)
    requires
        st.arrives_first(from, to, t0, a),
        st.arrives_first(from, to, t0, b),
    ensures
        a == b,
{
    if a < b {
        assert(!st.reachable(from, t0, to, a));
    } else if b < a {
        assert(!st.reachable(from, t0, to, b));
    }
}

proof fn lemma_first_arrival_some(st: State, from: (int, int), to: (int, int), t0: int, limit: int, t: int)
    requires
        st.arrives_first(from, to, t0, t),
        t <= limit,
    ensures
        st.first_arrival(from, to, t0, limit) == Some(t),
{
    let c = choose|u: int| u <= limit && #[trigger] st.arrives_first(from, to, t0, u);
    lemma_arrival_unique(st, from, to, t0, c, t);
}

proof fn lemma_first_arrival_none(st: State, from: (int, int), to: (int, int), t0: int, limit: int)
    requires
        forall|u: int| t0 <= u <= limit ==> !#[trigger] st.reachable(from, t0, to, u),
    ensures
        st.first_arrival(from, to, t0, limit) is None,
{
}

impl State {
    /// Whether a traveller may be on `p` at tick `t`, a tick whose slice is computed.
    fn can_stand_at(&self, cache: &SliceCache, t: usize, p: (i32, i32)) -> (r: bool)
        requires
            self.wf(),
            cache.wf(*self),
            t < cache.computed(),
        ensures
            r == self.can_stand(t as nat, pt(p)),
    {
        if (p.0 == self.start.0 && p.1 == self.start.1) || (p.0 == self.end.0 && p.1 == self.end.1) {
            true
        } else if 0 <= p.0 && p.0 < self.height && 0 <= p.1 && p.1 < self.width {
            !cache.is_occupied(self, t, p.0, p.1)
        } else {
            false
        }
    }
}


impl State {
    /// The number of places: the interior cells, the entrance and the exit.
    pub open spec fn n_places(&self) -> int {
        self.h() * self.w() + 2
    }

    /// The place of index `i`: interior cells in row-major order, then the entrance, then the exit.
    pub open spec fn place(&self, i: int) -> (int, int) {
        if i < self.h() * self.w() {
            cell(self.w(), i)
        } else if i == self.h() * self.w() {
            pt(self.start)
        } else {
            pt(self.end)
        }
    }

    proof fn lemma_sizes(&self)
        requires
            self.wf(),
        ensures
            self.h() * self.w() <= MAX_SIDE * MAX_SIDE,
    {
        assert(self.h() * self.w() <= MAX_SIDE * MAX_SIDE) by (nonlinear_arith)
            requires
                1 <= self.h() <= MAX_SIDE,
                1 <= self.w() <= MAX_SIDE,
        ;
    }

    /// The cell of place `i`.
    fn place_at(&self, i: usize) -> (r: (i32, i32))
        requires
            self.wf(),
            i < self.n_places(),
        ensures
            pt(r) == self.place(i as int),
    {
        proof {
            self.lemma_sizes();
        }
        let hw: usize = (self.height as usize) * (self.width as usize);
        if i < hw {
            proof {
                lemma_cell_in_box(self.h(), self.w(), i as int);
            }
            ((i / (self.width as usize)) as i32, (i % (self.width as usize)) as i32)
        } else if i == hw {
            self.start
        } else {
            self.end
        }
    }

    /// The index of place `p`, or `None` when `p` is not a place.
    fn place_index(&self, p: (i32, i32)) -> (r: Option<usize>)
        requires
            self.wf(),
        ensures
            match r {
                Some(i) => i < self.n_places() && self.place(i as int) == pt(p),
                None => !self.is_place(pt(p)),
            },
    {
        proof {
            self.lemma_sizes();
        }
        let hw: usize = (self.height as usize) * (self.width as usize);
        if p.0 == self.start.0 && p.1 == self.start.1 {
            Some(hw)
        } else if p.0 == self.end.0 && p.1 == self.end.1 {
            Some(hw + 1)
        } else if 0 <= p.0 && p.0 < self.height && 0 <= p.1 && p.1 < self.width {
            proof {
                lemma_cell_index(self.h(), self.w(), p.0 as int, p.1 as int);
            }
            Some((p.0 as usize) * (self.width as usize) + (p.1 as usize))
        } else {
            None
        }
    }

    /// Whether a traveller leaving `from` at `t0` can be on `q` at tick `t`, read from the
    /// bitmap of places reachable at `t`.
    fn frontier_has(
        &self,
        frontier: &Vec<bool>,
        q: (i32, i32),
        Ghost(from): Ghost<(int, int)>,
        Ghost(t0): Ghost<int>,
        Ghost(t): Ghost<int>,
    ) -> (r: bool)
        requires
            self.wf(),
            self.is_place(from),
            frontier@.len() == self.n_places(),
            forall|i: int|
                0 <= i < self.n_places() ==> #[trigger] frontier@[i] == self.reachable(from, t0, self.place(i), t),
        ensures
            r == self.reachable(from, t0, pt(q), t),
    {
        match self.place_index(q) {
            Some(i) => frontier[i],
            None => {
                proof {
                    if self.reachable(from, t0, pt(q), t) {
                        lemma_reachable_is_place(*self, from, t0, pt(q), t);
                    }
                }
                false
            },
        }
    }
}

/// Searches for the first tick at which a traveller leaving `from` at tick `t0` can be on
/// `to`, advancing tick by tick the set of places that can be reached, up to tick `limit`.
pub fn bfs_arrival_time(
    st: &State,
    cache: &mut SliceCache,
    from: (i32, i32),
    to: (i32, i32),
    t0: usize,
    limit: usize,
) -> (r: Result<usize, SearchError>)
    requires
        st.wf(),
        old(cache).wf(*st),
        st.is_place(pt(from)),
        st.is_place(pt(to)),
    ensures
        final(cache).wf(*st),
        final(cache).computed() >= old(cache).computed(),
        r is Ok ==> final(cache).computed() == if old(cache).computed() > r->Ok_0 {
            old(cache).computed() as int
        } else {
            r->Ok_0 + 1
        },
        st.leg_outcome(from, to, t0, limit, r),
{
    if t0 > limit {
        proof {
            lemma_first_arrival_none(*st, pt(from), pt(to), t0 as int, limit as int);
        }
        return Err(SearchError::NotReachableWithinLimit);
    }
    proof {
        st.lemma_sizes();
    }
    let n: usize = (st.height as usize) * (st.width as usize) + 2;
    let ghost src = pt(from);
    let mut frontier: Vec<bool> = Vec::new();
    let mut i: usize = 0;
    while i < n
        invariant
            st.wf(),
            src == pt(from),
            n == st.n_places(),
            i <= n,
            frontier@.len() == i,
            forall|j: int|
                0 <= j < i ==> #[trigger] frontier@[j] == st.reachable(src, t0 as int, st.place(j), t0 as int),
        decreases n - i,
    {
        let p = st.place_at(i);
        frontier.push(p.0 == from.0 && p.1 == from.1);
        assert(frontier@[i as int] == st.reachable(src, t0 as int, st.place(i as int), t0 as int));
        i += 1;
    }
    let mut t: usize = t0;
    loop
        invariant
            st.wf(),
            cache.wf(*st),
            st.is_place(src),
            st.is_place(pt(to)),
            src == pt(from),
            n == st.n_places(),
            t0 <= t <= limit,
            t == t0 ==> cache.computed() == old(cache).computed(),
            t > t0 ==> cache.computed() == if old(cache).computed() > t { old(cache).computed() as int } else {
                t + 1
            },
            frontier@.len() == n,
            forall|j: int|
                0 <= j < n ==> #[trigger] frontier@[j] == st.reachable(src, t0 as int, st.place(j), t as int),
            forall|u: int| t0 <= u < t ==> !#[trigger] st.reachable(src, t0 as int, pt(to), u),
        decreases limit - t,
    {
        if st.frontier_has(&frontier, to, Ghost(src), Ghost(t0 as int), Ghost(t as int)) {
            proof {
                lemma_first_arrival_some(*st, src, pt(to), t0 as int, limit as int, t as int);
            }
            cache.extend_to(st, t);
            return Ok(t);
        }
        if t == limit {
            proof {
                lemma_first_arrival_none(*st, src, pt(to), t0 as int, limit as int);
            }
            return Err(SearchError::NotReachableWithinLimit);
        }
        cache.extend_to(st, t + 1);
        let mut next: Vec<bool> = Vec::new();
        let mut i: usize = 0;
        while i < n
            invariant
                st.wf(),
                cache.wf(*st),
                t + 1 < cache.computed(),
                st.is_place(src),
                n == st.n_places(),
                t0 <= t < limit,
                i <= n,
                frontier@.len() == n,
                forall|j: int|
                    0 <= j < n ==> #[trigger] frontier@[j] == st.reachable(src, t0 as int, st.place(j), t as int),
                next@.len() == i,
                forall|j: int|
                    0 <= j < i ==> #[trigger] next@[j] == st.reachable(src, t0 as int, st.place(j), t + 1),
            decreases n - i,
        {
            let p = st.place_at(i);
            let stand = st.can_stand_at(cache, t + 1, p);
            let mut came = false;
            if stand {
                proof {
                    assert(st.is_place(pt(p)));
                }
                came = st.frontier_has(&frontier, p, Ghost(src), Ghost(t0 as int), Ghost(t as int))
                    || st.frontier_has(&frontier, (p.0 - 1, p.1), Ghost(src), Ghost(t0 as int), Ghost(t as int))
                    || st.frontier_has(&frontier, (p.0 + 1, p.1), Ghost(src), Ghost(t0 as int), Ghost(t as int))
                    || st.frontier_has(&frontier, (p.0, p.1 - 1), Ghost(src), Ghost(t0 as int), Ghost(t as int))
                    || st.frontier_has(&frontier, (p.0, p.1 + 1), Ghost(src), Ghost(t0 as int), Ghost(t as int));
            }
            next.push(came);
            i += 1;
        }
        frontier = next;
        t += 1;
    }
}


/// A search node: a cell and a tick.
pub type Node = ((i32, i32), usize);

/// The states a traveller on `node` can be in one tick later, each at cost 1: the cell
/// itself or one of its four neighbours, where a traveller may stand at the next tick.
/// Nodes at tick `limit` or later have none. Slices are computed as they are needed.
pub fn next_states(st: &State, cache: &mut SliceCache, node: &Node, limit: usize) -> (r: Vec<(Node, usize)>)
    requires
        st.wf(),
        old(cache).wf(*st),
    ensures
        final(cache).wf(*st),
        final(cache).computed() >= old(cache).computed(),
        r@.len() <= 5,
        forall|i: int, j: int| 0 <= i < j < r@.len() ==> pt(r@[i].0.0) != pt(r@[j].0.0),
        forall|i: int|
            0 <= i < r@.len() ==> {
                &&& (#[trigger] r@[i]).1 == 1
                &&& r@[i].0.1 == node.1 + 1
                &&& adjacent(pt(r@[i].0.0), pt(node.0))
                &&& st.can_stand((node.1 + 1) as nat, pt(r@[i].0.0))
            },
        forall|q: (int, int)|
            node.1 < limit && adjacent(q, pt(node.0)) && st.can_stand((node.1 + 1) as nat, q) ==> exists|i: int|
                0 <= i < r@.len() && pt((#[trigger] r@[i]).0.0) == q,
{
    let mut r: Vec<(Node, usize)> = Vec::new();
    let (p, t) = *node;
    if t >= limit || !(-2 <= p.0 && p.0 <= st.height + 1 && -2 <= p.1 && p.1 <= st.width + 1) {
        return r;
    }
    cache.extend_to(st, t + 1);
    let candidates: [(i32, i32); 5] = [(p.0, p.1), (p.0 - 1, p.1), (p.0 + 1, p.1), (p.0, p.1 - 1), (p.0, p.1 + 1)];
    let mut k: usize = 0;
    let ghost mut found: Seq<int> = Seq::empty();
    let ghost mut src: Seq<int> = Seq::empty();
    let ghost start_computed = old(cache).computed();
    while k < 5
        invariant
            st.wf(),
            cache.wf(*st),
            t + 1 < cache.computed(),
            cache.computed() >= start_computed,
            start_computed == old(cache).computed(),
            src.len() == r@.len(),
            r@.len() <= k,
            forall|m: int| 0 <= m < src.len() ==> 0 <= #[trigger] src[m] < k && pt(r@[m].0.0) == pt(candidates@[src[m]]),
            forall|a: int, b: int| 0 <= a < b < src.len() ==> src[a] < src[b],
            node.1 == t,
            node.0 == p,
            k <= 5,
            candidates@.len() == 5,
            pt(candidates@[0]) == pt(p),
            pt(candidates@[1]) == (p.0 - 1, p.1 as int),
            pt(candidates@[2]) == (p.0 + 1, p.1 as int),
            pt(candidates@[3]) == (p.0 as int, p.1 - 1),
            pt(candidates@[4]) == (p.0 as int, p.1 + 1),
            forall|i: int|
                0 <= i < r@.len() ==> {
                    &&& (#[trigger] r@[i]).1 == 1
                    &&& r@[i].0.1 == t + 1
                    &&& adjacent(pt(r@[i].0.0), pt(p))
                    &&& st.can_stand((t + 1) as nat, pt(r@[i].0.0))
                },
            t < limit,
            found.len() == k,
            forall|j: int|
                0 <= j < k && st.can_stand((t + 1) as nat, pt(candidates@[j])) ==> 0 <= #[trigger] found[j] < r@.len()
                    && pt(r@[found[j]].0.0) == pt(candidates@[j]),
        decreases 5 - k,
    {
        let q = candidates[k];
        if st.can_stand_at(cache, t + 1, q) {
            r.push(((q, t + 1), 1));
            proof {
                src = src.push(k as int);
            }
        }
        proof {
            found = found.push((r@.len() - 1) as int);
        }
        k += 1;
    }
    assert forall|i: int, j: int| 0 <= i < j < r@.len() implies pt(r@[i].0.0) != pt(r@[j].0.0) by {
        assert(src[i] < src[j]);
        assert(0 <= src[i] < 5 && 0 <= src[j] < 5);
        assert(pt(r@[i].0.0) == pt(candidates@[src[i]]));
        assert(pt(r@[j].0.0) == pt(candidates@[src[j]]));
    }
    assert forall|q: (int, int)| adjacent(q, pt(p)) && st.can_stand((t + 1) as nat, q) implies exists|i: int|
        0 <= i < r@.len() && pt((#[trigger] r@[i]).0.0) == q by {
        let j: int = if q == pt(candidates@[0]) {
            0
        } else if q == pt(candidates@[1]) {
            1
        } else if q == pt(candidates@[2]) {
            2
        } else if q == pt(candidates@[3]) {
            3
        } else {
            4
        };
        assert(pt(r@[found[j]].0.0) == q);
    }
    r
}

/// The number of orthogonal steps between two cells.
pub open spec fn manhattan(p: (int, int), q: (int, int)) -> int {
    (if p.0 >= q.0 { p.0 - q.0 } else { q.0 - p.0 }) + (if p.1 >= q.1 { p.1 - q.1 } else { q.1 - p.1 })
}

/// The cap on the A* estimate: a lower estimate stays admissible, and the search's sums of
/// cost and estimate stay far from overflow.
pub const ESTIMATE_CAP: usize = 0xFFFF;

/// The largest tick limit an A* search takes: its costs plus `ESTIMATE_CAP` then fit in a
/// `usize` of 32 bits.
pub const SEARCH_LIMIT_MAX: usize = 0x4000_0000;

/// The A* estimate for `node`: its distance to `to`, capped at `ESTIMATE_CAP`.
pub fn distance_to(node: &Node, to: (i32, i32)) -> (r: usize)
    ensures
        r == if manhattan(pt(node.0), pt(to)) <= ESTIMATE_CAP { manhattan(pt(node.0), pt(to)) } else { ESTIMATE_CAP as int },
{
    let dr: i64 = if node.0.0 >= to.0 { node.0.0 as i64 - to.0 as i64 } else { to.0 as i64 - node.0.0 as i64 };
    let dc: i64 = if node.0.1 >= to.1 { node.0.1 as i64 - to.1 as i64 } else { to.1 as i64 - node.0.1 as i64 };
    let d = dr + dc;
    if d <= ESTIMATE_CAP as i64 {
        d as usize
    } else {
        ESTIMATE_CAP
    }
}

/// Whether `node` is on the cell `to`.
pub fn at_goal(node: &Node, to: (i32, i32)) -> (r: bool)
    ensures
        r == (pt(node.0) == pt(to)),
{
    node.0.0 == to.0 && node.0.1 == to.1
}

/// The distance estimate never exceeds the ticks still needed: a traveller on `p` at tick
/// `t` can be on `q` at tick `u` only if `manhattan(p, q) <= u - t`.
pub proof fn lemma_distance_admissible(st: State, p: (int, int), t: int, q: (int, int), u: int)
    requires
        st.reachable(p, t, q, u),
    ensures
        manhattan(p, q) <= u - t,
    decreases u - t,
{
    if u > t {
        if st.reachable(p, t, q, u - 1) {
            lemma_distance_admissible(st, p, t, q, u - 1);
        } else if st.reachable(p, t, (q.0 - 1, q.1), u - 1) {
            lemma_distance_admissible(st, p, t, (q.0 - 1, q.1), u - 1);
        } else if st.reachable(p, t, (q.0 + 1, q.1), u - 1) {
            lemma_distance_admissible(st, p, t, (q.0 + 1, q.1), u - 1);
        } else if st.reachable(p, t, (q.0, q.1 - 1), u - 1) {
            lemma_distance_admissible(st, p, t, (q.0, q.1 - 1), u - 1);
        } else {
            lemma_distance_admissible(st, p, t, (q.0, q.1 + 1), u - 1);
        }
    }
}

/// Relies on `pathfinding::directed::astar::astar`, which returns a least-cost path from the
/// start node to a node accepted by `success`, with its cost, or `None` when no such node
/// can be reached, provided the heuristic never overestimates the remaining cost. Here the
/// successors are those of `next_states` (cost 1 each, none past tick `limit`), the
/// heuristic is `distance_to` (admissible by `lemma_distance_admissible`, and at most
/// `ESTIMATE_CAP`, so with costs at most `SEARCH_LIMIT_MAX` the search's sums do not
/// overflow) and success is being on `to`; only the cost is kept. The cache changes only
/// through `next_states`, which keeps it well formed and never shrinks it.
#[verifier::external_body]
fn astar_leg(st: &State, cache: &mut SliceCache, from: (i32, i32), to: (i32, i32), t0: usize, limit: usize) -> (r:
    Option<usize>)
    requires
        st.wf(),
        old(cache).wf(*st),
        t0 <= limit,
        limit <= SEARCH_LIMIT_MAX,
    ensures
        final(cache).wf(*st),
        final(cache).computed() >= old(cache).computed(),
        match r {
            Some(k) => t0 + k <= limit && st.arrives_first(pt(from), pt(to), t0 as int, t0 + k),
            None => forall|u: int| t0 <= u <= limit ==> !#[trigger] st.reachable(pt(from), t0 as int, pt(to), u),
        },
{
    pathfinding::directed::astar::astar(
        &(from, t0),
        |node: &Node| next_states(st, cache, node, limit),
        |node: &Node| distance_to(node, to),
        |node: &Node| at_goal(node, to),
    ).map(|found| found.1)
}

/// The first tick at which a traveller leaving `from` at tick `t0` can be on `to`, found by
/// A* search over (cell, tick) states, or an error when there is none up to tick `limit`.
pub fn arrival_time(
    st: &State,
    cache: &mut SliceCache,
    from: (i32, i32),
    to: (i32, i32),
    t0: usize,
    limit: usize,
) -> (r: Result<usize, SearchError>)
    requires
        st.wf(),
        old(cache).wf(*st),
        limit <= SEARCH_LIMIT_MAX,
    ensures
        final(cache).wf(*st),
        final(cache).computed() >= old(cache).computed(),
        r is Ok ==> final(cache).computed() > r->Ok_0,
        st.leg_outcome(from, to, t0, limit, r),
        pt(from) != pt(to) && r is Ok ==> r->Ok_0 > t0,
{
    if t0 > limit {
        proof {
            lemma_first_arrival_none(*st, pt(from), pt(to), t0 as int, limit as int);
        }
        return Err(SearchError::NotReachableWithinLimit);
    }
    match astar_leg(st, cache, from, to, t0, limit) {
        Some(k) => {
            proof {
                lemma_first_arrival_some(*st, pt(from), pt(to), t0 as int, limit as int, t0 + k);
            }
            // Keep the slices up to the arrival tick: when `from` is `to` the search
            // computes none.
            cache.extend_to(st, t0 + k);
            Ok(t0 + k)
        },
        None => {
            proof {
                lemma_first_arrival_none(*st, pt(from), pt(to), t0 as int, limit as int);
            }
            Err(SearchError::NotReachableWithinLimit)
        },
    }
}


impl State {
    /// The arrival tick of the last of `legs`, walked in order from tick `t0`, each leg
    /// leaving at the arrival tick of the one before; `None` when some leg has no arrival
    /// up to `limit`.
    pub open spec fn journey_end(&self, legs: Seq<((i32, i32), (i32, i32))>, t0: int, limit: int) -> Option<int>
        decreases legs.len(),
    {
        if legs.len() == 0 {
            Some(t0)
        } else {
            match self.first_arrival(pt(legs[0].0), pt(legs[0].1), t0, limit) {
                Some(t) => self.journey_end(legs.drop_first(), t, limit),
                None => None,
            }
        }
    }
}

/// Walks `legs` in order through one valley from tick 0, each leg leaving when the one
/// before arrived, all sharing `cache`; returns the arrival tick of the last leg.
pub fn journey(st: &State, cache: &mut SliceCache, legs: &Vec<((i32, i32), (i32, i32))>, limit: usize) -> (r: Result<
    usize,
    SearchError,
>)
    requires
        st.wf(),
        old(cache).wf(*st),
        limit <= SEARCH_LIMIT_MAX,
    ensures
        final(cache).wf(*st),
        final(cache).computed() >= old(cache).computed(),
        match r {
            Ok(t) => st.journey_end(legs@, 0, limit as int) == Some(t as int),
            Err(e) => e == SearchError::NotReachableWithinLimit && st.journey_end(legs@, 0, limit as int) is None,
        },
{
    let mut t: usize = 0;
    let mut i: usize = 0;
    assert(legs@.subrange(0, legs@.len() as int) =~= legs@);
    while i < legs.len()
        invariant
            st.wf(),
            cache.wf(*st),
            limit <= SEARCH_LIMIT_MAX,
            cache.computed() >= old(cache).computed(),
            i <= legs@.len(),
            st.journey_end(legs@, 0, limit as int) == st.journey_end(legs@.subrange(i as int, legs@.len() as int), t as int, limit as int),
        decreases legs@.len() - i,
    {
        let (from, to) = legs[i];
        let ghost rest = legs@.subrange(i as int, legs@.len() as int);
        assert(rest.drop_first() =~= legs@.subrange(i + 1, legs@.len() as int));
        assert(rest[0] == legs@[i as int]);
        match arrival_time(st, cache, from, to, t, limit) {
            Ok(next) => {
                t = next;
            },
            Err(e) => {
                return Err(e);
            },
        }
        i += 1;
    }
    assert(legs@.subrange(i as int, legs@.len() as int).len() == 0);
    Ok(t)
}

/// The first tick at which the expedition, leaving the entrance at tick 0, reaches the exit.
pub fn part1(input: &State) -> (r: Result<u32, SearchError>)
    requires
        input.wf(),
    ensures
        match r {
            Ok(t) => input.first_arrival(pt(input.start), pt(input.end), 0, TICK_LIMIT as int) == Some(t as int),
            Err(_) => input.first_arrival(pt(input.start), pt(input.end), 0, TICK_LIMIT as int) is None,
        },
{
    let mut cache = SliceCache::new(input);
    match arrival_time(input, &mut cache, input.start, input.end, 0, TICK_LIMIT) {
        Ok(t) => Ok(t as u32),
        Err(e) => Err(e),
    }
}

/// The arrival tick of the trip entrance to exit, back to the entrance, and to the exit
/// again, each leg leaving when the one before arrived.
pub fn part2(input: &State) -> (r: Result<u32, SearchError>)
    requires
        input.wf(),
    ensures
        match r {
            Ok(t) => input.journey_end(
                seq![(input.start, input.end), (input.end, input.start), (input.start, input.end)],
                0,
                TICK_LIMIT as int,
            ) == Some(t as int),
            Err(_) => input.journey_end(
                seq![(input.start, input.end), (input.end, input.start), (input.start, input.end)],
                0,
                TICK_LIMIT as int,
            ) is None,
        },
{
    let mut cache = SliceCache::new(input);
    let legs = vec![(input.start, input.end), (input.end, input.start), (input.start, input.end)];
    assert(legs@ == seq![(input.start, input.end), (input.end, input.start), (input.start, input.end)]);
    match journey(input, &mut cache, &legs, TICK_LIMIT) {
        Ok(t) => {
            proof {
                lemma_journey_bounded(*input, legs@, 0, TICK_LIMIT as int);
            }
            Ok(t as u32)
        },
        Err(e) => Err(e),
    }
}

/// A journey that ends, ends at a tick between its departure and `limit`.
pub proof fn lemma_journey_bounded(st: State, legs: Seq<((i32, i32), (i32, i32))>, t0: int, limit: int)
    requires
        t0 <= limit,
    ensures
        st.journey_end(legs, t0, limit) matches Some(t) ==> t0 <= t <= limit,
    decreases legs.len(),
{
    if legs.len() > 0 {
        if let Some(t) = st.first_arrival(pt(legs[0].0), pt(legs[0].1), t0, limit) {
            lemma_journey_bounded(st, legs.drop_first(), t, limit);
        }
    }
}


/// The bitmap of a tick is the same on every call: whatever the cache held, any two
/// answers for tick `t` are equal.
pub proof fn lemma_slice_memoized(st: State, t: nat, a: Seq<bool>, b: Seq<bool>)
    requires
        st.is_slice(t, a),
        st.is_slice(t, b),
    ensures
        a == b,
{
    assert(a =~= b);
}

/// At tick 0 the covered cells are exactly those the blizzards start on.
pub proof fn lemma_slice_zero(st: State, p: (int, int))
    ensures
        st.occupied(0, p) <==> exists|k: int| 0 <= k < st.blizzards@.len() && bpos(#[trigger] st.blizzards@[k]) == p,
{
    if st.occupied(0, p) {
        let k = choose|k: int| 0 <= k < st.blizzards@.len() && #[trigger] st.blizzard_at(k, 0) == p;
        assert(bpos(st.blizzards@[k]) == p);
    }
    if exists|k: int| 0 <= k < st.blizzards@.len() && bpos(#[trigger] st.blizzards@[k]) == p {
        let k = choose|k: int| 0 <= k < st.blizzards@.len() && bpos(#[trigger] st.blizzards@[k]) == p;
        assert(st.blizzard_at(k, 0) == p);
    }
}

/// A leg search answers the same on every call: any two results that meet the search's
/// contract for the same valley, endpoints, departure tick and limit are equal.
pub proof fn lemma_leg_deterministic(
    st: State,
    from: (i32, i32),
    to: (i32, i32),
    t0: usize,
    limit: usize,
    r1: Result<usize, SearchError>,
    r2: Result<usize, SearchError>,
)
    requires
        st.leg_outcome(from, to, t0, limit, r1),
        st.leg_outcome(from, to, t0, limit, r2),
    ensures
        r1 == r2,
{
}

/// The A* search (`arrival_time`) and the tick-by-tick breadth-first search
/// (`bfs_arrival_time`) return the same result: both meet `leg_outcome`, which allows one
/// result only.
pub proof fn lemma_astar_matches_bfs(
    st: State,
    from: (i32, i32),
    to: (i32, i32),
    t0: usize,
    limit: usize,
    by_astar: Result<usize, SearchError>,
    by_bfs: Result<usize, SearchError>,
)
    requires
        st.leg_outcome(from, to, t0, limit, by_astar),
        st.leg_outcome(from, to, t0, limit, by_bfs),
    ensures
        by_astar == by_bfs,
{
    lemma_leg_deterministic(st, from, to, t0, limit, by_astar, by_bfs);
}

/// A leg between two different cells takes at least one tick: its arrival tick is
/// greater than its departure tick.
pub proof fn lemma_leg_takes_a_tick(st: State, from: (int, int), to: (int, int), t0: int, limit: int)
    requires
        from != to,
    ensures
        st.first_arrival(from, to, t0, limit) matches Some(t) ==> t > t0,
{
    if let Some(t) = st.first_arrival(from, to, t0, limit) {
        assert(st.arrives_first(from, to, t0, t));
        if t == t0 {
            assert(st.reachable(from, t0, to, t0));
        }
    }
}

/// A leg takes at least as many ticks as the orthogonal distance between its ends.
pub proof fn lemma_leg_at_least_distance(st: State, from: (int, int), to: (int, int), t0: int, limit: int)
    ensures
        st.first_arrival(from, to, t0, limit) matches Some(t) ==> t - t0 >= manhattan(from, to),
{
    if let Some(t) = st.first_arrival(from, to, t0, limit) {
        assert(st.arrives_first(from, to, t0, t));
        lemma_distance_admissible(st, from, t0, to, t);
    }
}

/// The trip there, back and there again ends at least twice the entrance-to-exit distance
/// after the first arrival at the exit, and each leg ends after it starts.
pub proof fn lemma_round_trip_bound(st: State, limit: int)
    requires
        pt(st.start) != pt(st.end),
    ensures
        st.journey_end(seq![(st.start, st.end), (st.end, st.start), (st.start, st.end)], 0, limit) matches Some(r)
            ==> st.first_arrival(pt(st.start), pt(st.end), 0, limit) matches Some(t1) && t1 > 0 && r >= t1 + 2
            * manhattan(pt(st.start), pt(st.end)) && r > t1 + 1,
{
    let legs = seq![(st.start, st.end), (st.end, st.start), (st.start, st.end)];
    let s = pt(st.start);
    let e = pt(st.end);
    if let Some(r) = st.journey_end(legs, 0, limit) {
        assert(legs[0] == (st.start, st.end));
        let t1 = st.first_arrival(s, e, 0, limit)->Some_0;
        assert(legs.drop_first() =~= seq![(st.end, st.start), (st.start, st.end)]);
        let l2 = legs.drop_first();
        let t2 = st.first_arrival(e, s, t1, limit)->Some_0;
        assert(l2.drop_first() =~= seq![(st.start, st.end)]);
        let l3 = l2.drop_first();
        assert(l3.drop_first() =~= Seq::<((i32, i32), (i32, i32))>::empty());
        assert(st.first_arrival(s, e, 0, limit) is Some);
        assert(st.journey_end(legs, 0, limit) == st.journey_end(l2, t1, limit));
        assert(l2[0] == (st.end, st.start));
        assert(st.first_arrival(e, s, t1, limit) is Some);
        assert(st.journey_end(l2, t1, limit) == st.journey_end(l3, t2, limit));
        assert(l3[0] == (st.start, st.end));
        assert(st.first_arrival(s, e, t2, limit) is Some);
        let t3 = st.first_arrival(s, e, t2, limit)->Some_0;
        assert(st.journey_end(l3, t2, limit) == st.journey_end(l3.drop_first(), t3, limit));
        assert(r == t3);
        lemma_leg_at_least_distance(st, s, e, 0, limit);
        lemma_leg_at_least_distance(st, e, s, t1, limit);
        lemma_leg_at_least_distance(st, s, e, t2, limit);
        lemma_leg_takes_a_tick(st, s, e, 0, limit);
        lemma_leg_takes_a_tick(st, e, s, t1, limit);
        lemma_leg_takes_a_tick(st, s, e, t2, limit);
        assert(manhattan(e, s) == manhattan(s, e));
    }
}

/// The number of ticks after which a blizzard with heading `d` is back where it started.
pub open spec fn period(d: Direction, h: int, w: int) -> int {
    match d {
        Direction::Right | Direction::Left => w,
        Direction::Down | Direction::Up => h,
    }
}

/// Where a blizzard stands after `t` ticks, `t` at most its period, without stepping.
pub open spec fn wrapped_pos(b: Blizzard, h: int, w: int, t: int) -> (int, int) {
    let (r, c) = bpos(b);
    match b.heading {
        Direction::Right => (r, if c + t < w { c + t } else { c + t - w }),
        Direction::Left => (r, if t <= c { c - t } else { c - t + w }),
        Direction::Down => (if r + t < h { r + t } else { r + t - h }, c),
        Direction::Up => (if t <= r { r - t } else { r - t + h }, c),
    }
}

proof fn lemma_pos_closed_form(b: Blizzard, h: int, w: int, t: nat)
    requires
        in_box(bpos(b), h, w),
        t <= period(b.heading, h, w),
    ensures
        pos_at(b, h, w, t) == wrapped_pos(b, h, w, t as int),
    decreases t,
{
    if t > 0 {
        lemma_pos_closed_form(b, h, w, (t - 1) as nat);
    }
}

/// A blizzard on the boundary cell of its heading moves to the opposite boundary cell of
/// the same row or column.
pub proof fn lemma_wraps_at_boundary(b: Blizzard, h: int, w: int)
    requires
        in_box(bpos(b), h, w),
    ensures
        b.heading == Direction::Right && b.col == w - 1 ==> pos_at(b, h, w, 1) == (b.row as int, 0int),
        b.heading == Direction::Left && b.col == 0 ==> pos_at(b, h, w, 1) == (b.row as int, w - 1),
        b.heading == Direction::Down && b.row == h - 1 ==> pos_at(b, h, w, 1) == (0int, b.col as int),
        b.heading == Direction::Up && b.row == 0 ==> pos_at(b, h, w, 1) == (h - 1, b.col as int),
{
    assert(pos_at(b, h, w, 1) == stepped(pos_at(b, h, w, 0), b.heading, h, w));
}

/// A blizzard is back on its starting cell after as many ticks as the interior is wide
/// (moving left or right) or high (moving up or down), and not before.
pub proof fn lemma_blizzard_cycle(b: Blizzard, h: int, w: int)
    requires
        in_box(bpos(b), h, w),
    ensures
        pos_at(b, h, w, period(b.heading, h, w) as nat) == bpos(b),
        forall|k: nat| 0 < k < period(b.heading, h, w) ==> #[trigger] pos_at(b, h, w, k) != bpos(b),
{
    lemma_pos_closed_form(b, h, w, period(b.heading, h, w) as nat);
    assert forall|k: nat| 0 < k < period(b.heading, h, w) implies #[trigger] pos_at(b, h, w, k) != bpos(b) by {
        lemma_pos_closed_form(b, h, w, k);
    }
}

/// One period later a blizzard is where it was.
proof fn lemma_pos_periodic(b: Blizzard, h: int, w: int, t: nat)
    requires
        in_box(bpos(b), h, w),
    ensures
        pos_at(b, h, w, t + period(b.heading, h, w) as nat) == pos_at(b, h, w, t),
    decreases t,
{
    let d = period(b.heading, h, w) as nat;
    if t == 0 {
        lemma_blizzard_cycle(b, h, w);
    } else {
        lemma_pos_periodic(b, h, w, (t - 1) as nat);
        assert((t + d - 1) as nat == ((t - 1) as nat + d) as nat);
    }
}

/// Any number `m` of periods later a blizzard is where it was.
proof fn lemma_pos_periods(b: Blizzard, h: int, w: int, t: nat, m: nat)
    requires
        in_box(bpos(b), h, w),
    ensures
        pos_at(b, h, w, t + m * period(b.heading, h, w) as nat) == pos_at(b, h, w, t),
    decreases m,
{
    let d = period(b.heading, h, w) as nat;
    if m > 0 {
        let m1 = (m - 1) as nat;
        lemma_pos_periods(b, h, w, t, m1);
        let a = (t + m1 * d) as nat;
        assert(pos_at(b, h, w, a) == pos_at(b, h, w, t));
        lemma_pos_periodic(b, h, w, a);
        assert(pos_at(b, h, w, (a + d) as nat) == pos_at(b, h, w, a));
        assert(a + d == t + m * d) by (nonlinear_arith)
            requires
                a == t + m1 * d,
                m1 == m - 1,
        ;
        assert(((a + d) as nat) == ((t + m * d) as nat));
        assert(pos_at(b, h, w, (t + m * d) as nat) == pos_at(b, h, w, t));
    } else {
        assert(m * d == 0) by (nonlinear_arith)
            requires
                m == 0,
        ;
        assert((t + m * d) as nat == t);
    }
}

/// The time slices repeat: after any `l` ticks that is a multiple of both the height and the
/// width of the interior (their least common multiple, for one), every cell is covered
/// exactly when it was.
pub proof fn lemma_slices_repeat(st: State, t: nat, l: nat)
    requires
        st.wf(),
        l % (st.h() as nat) == 0,
        l % (st.w() as nat) == 0,
    ensures
        forall|p: (int, int)| #[trigger] st.occupied(t + l, p) == st.occupied(t, p),
{
    assert forall|k: int| 0 <= k < st.blizzards@.len() implies #[trigger] st.blizzard_at(k, t + l) == st.blizzard_at(k, t) by {
        let b = st.blizzards@[k];
        assert(st.interior(bpos(b)));
        let d = period(b.heading, st.h(), st.w()) as nat;
        let m = l / d;
        vstd::arithmetic::div_mod::lemma_fundamental_div_mod(l as int, d as int);
        assert(l == m * d) by (nonlinear_arith)
            requires
                l as int == d * (l as int / d as int) + l as int % d as int,
                l as int % d as int == 0,
                m == l / d,
        ;
        lemma_pos_periods(b, st.h(), st.w(), t, m);
    }
    assert forall|p: (int, int)| #[trigger] st.occupied(t + l, p) == st.occupied(t, p) by {
        if st.occupied(t + l, p) {
            let k = choose|k: int| 0 <= k < st.blizzards@.len() && #[trigger] st.blizzard_at(k, t + l) == p;
            assert(st.blizzard_at(k, t) == p);
        }
        if st.occupied(t, p) {
            let k = choose|k: int| 0 <= k < st.blizzards@.len() && #[trigger] st.blizzard_at(k, t) == p;
            assert(st.blizzard_at(k, t + l) == p);
        }
    }
}


/// The heading that map byte `b` draws, if it draws a blizzard.
pub open spec fn heading_of(b: u8) -> Option<Direction> {
    if b == 62 {
        Some(Direction::Right)
    } else if b == 118 {
        Some(Direction::Down)
    } else if b == 60 {
        Some(Direction::Left)
    } else if b == 94 {
        Some(Direction::Up)
    } else {
        None
    }
}

/// A map byte of the interior: open ground or a blizzard.
pub open spec fn is_ground(b: u8) -> bool {
    b == 46 || heading_of(b) is Some
}

/// The interior cell `(r, c)` of the map `ls`.
pub open spec fn ground(ls: Seq<Seq<u8>>, r: int, c: int) -> u8 {
    ls[r + 1][c + 1]
}

/// `ls` draws a valley: at least three lines, all `w + 2` bytes long for an interior width
/// `w >= 1`; at most `MAX_SIDE` interior rows and columns; a `.` in the first and in the
/// last line, each over an interior column; and only ground in the interior.
pub open spec fn is_valley_text(ls: Seq<Seq<u8>>) -> bool {
    &&& 3 <= ls.len() <= MAX_SIDE + 2
    &&& 3 <= ls[0].len() <= MAX_SIDE + 2
    &&& forall|r: int| 0 <= r < ls.len() ==> (#[trigger] ls[r]).len() == ls[0].len()
    &&& first_index(ls[0], 46) matches Some(i) && 1 <= i <= ls[0].len() - 2
    &&& first_index(ls[ls.len() - 1], 46) matches Some(i) && 1 <= i <= ls[0].len() - 2
    &&& forall|r: int, c: int|
        0 <= r < ls.len() - 2 && 0 <= c < ls[0].len() - 2 ==> is_ground(#[trigger] ground(ls, r, c))
}

/// The blizzards among the first `n` interior cells of a `w`-wide map, in row-major order.
pub open spec fn blizzards_in(ls: Seq<Seq<u8>>, w: int, n: int) -> Seq<Blizzard>
    decreases n,
{
    if n <= 0 {
        Seq::empty()
    } else {
        let (r, c) = cell(w, n - 1);
        let rest = blizzards_in(ls, w, n - 1);
        match heading_of(ground(ls, r, c)) {
            Some(d) => rest.push(Blizzard { row: r as i32, col: c as i32, heading: d }),
            None => rest,
        }
    }
}

/// Reads a valley map: `#` walls around the interior, `.` for open ground, and `>`, `v`,
/// `<`, `^` for blizzards; the gap in the top wall is the entrance and the gap in the
/// bottom wall the exit. `None` unless the text draws a valley (`is_valley_text`).
pub fn generator(input: &str) -> (r: Option<State>)
    ensures
        match r {
            Some(st) => {
                let ls = text_lines(input);
                &&& is_valley_text(ls)
                &&& st.wf()
                &&& st.height == ls.len() - 2
                &&& st.width == ls[0].len() - 2
                &&& first_index(ls[0], 46) == Some(st.start.1 + 1)
                &&& first_index(ls[ls.len() - 1], 46) == Some(st.end.1 + 1)
                &&& st.blizzards@ == blizzards_in(ls, st.w(), st.h() * st.w())
            },
            None => !is_valley_text(text_lines(input)),
        },
{
    let rows = str_lines(input);
    let ghost ls = views(rows@);
    if rows.len() < 3 || rows.len() > (MAX_SIDE as usize) + 2 || rows[0].len() < 3 || rows[0].len() > (MAX_SIDE as usize)
        + 2 {
        return None;
    }
    let full = rows[0].len();
    let mut r: usize = 0;
    while r < rows.len()
        invariant
            ls == views(rows@),
            ls == text_lines(input),
            3 <= ls.len(),
            full == ls[0].len(),
            r <= ls.len(),
            forall|j: int| 0 <= j < r ==> (#[trigger] ls[j]).len() == full,
        decreases ls.len() - r,
    {
        assert(rows@[r as int]@ == ls[r as int]);
        if rows[r].len() != full {
            assert(ls[r as int].len() != ls[0].len());
            return None;
        }
        r += 1;
    }
    let last = rows.len() - 1;
    assert(rows@[0]@ == ls[0]);
    assert(rows@[last as int]@ == ls[last as int]);
    let start = match find_byte(rows[0].as_slice(), 46) {
        Some(i) => i,
        None => {
            return None;
        },
    };
    let end = match find_byte(rows[last].as_slice(), 46) {
        Some(i) => i,
        None => {
            return None;
        },
    };
    if start < 1 || start > full - 2 || end < 1 || end > full - 2 {
        return None;
    }
    let height: usize = rows.len() - 2;
    let width: usize = full - 2;
    proof {
        assert(height <= MAX_SIDE && width <= MAX_SIDE);
        assert(height * width <= MAX_SIDE * MAX_SIDE) by (nonlinear_arith)
            requires
                1 <= height <= MAX_SIDE,
                1 <= width <= MAX_SIDE,
        ;
    }
    let n: usize = height * width;
    let mut blizzards: Vec<Blizzard> = Vec::new();
    let mut i: usize = 0;
    while i < n
        invariant
            ls == views(rows@),
            ls == text_lines(input),
            ls.len() == height + 2,
            full == ls[0].len(),
            width == full - 2,
            1 <= height <= MAX_SIDE,
            1 <= width <= MAX_SIDE,
            n == height * width,
            forall|j: int| 0 <= j < ls.len() ==> (#[trigger] ls[j]).len() == full,
            i <= n,
            forall|j: int| 0 <= j < i ==> is_ground(#[trigger] ground(ls, cell(width as int, j).0, cell(width as int, j).1)),
            blizzards@ == blizzards_in(ls, width as int, i as int),
            forall|k: int| 0 <= k < blizzards@.len() ==> in_box(bpos(#[trigger] blizzards@[k]), height as int, width as int),
        decreases n - i,
    {
        proof {
            lemma_cell_in_box(height as int, width as int, i as int);
        }
        let row = i / width;
        let col = i % width;
        let line = &rows[row + 1];
        assert(line@ == ls[row + 1]);
        let b = line[col + 1];
        assert(b == ground(ls, row as int, col as int));
        let heading = if b == 62 {
            Some(Direction::Right)
        } else if b == 118 {
            Some(Direction::Down)
        } else if b == 60 {
            Some(Direction::Left)
        } else if b == 94 {
            Some(Direction::Up)
        } else if b == 46 {
            None
        } else {
            proof {
                lemma_not_valley(ls, i as int, width as int);
            }
            return None;
        };
        match heading {
            Some(d) => blizzards.push(Blizzard { row: row as i32, col: col as i32, heading: d }),
            None => {},
        }
        i += 1;
    }
    proof {
        assert forall|rr: int, c: int| 0 <= rr < ls.len() - 2 && 0 <= c < ls[0].len() - 2 implies is_ground(
            #[trigger] ground(ls, rr, c),
        ) by {
            lemma_cell_index(height as int, width as int, rr, c);
            let j = rr * width + c;
            assert(is_ground(ground(ls, cell(width as int, j).0, cell(width as int, j).1)));
        }
    }
    let st = State {
        height: height as i32,
        width: width as i32,
        start: (-1, (start - 1) as i32),
        end: (height as i32, (end - 1) as i32),
        blizzards,
    };
    Some(st)
}

proof fn lemma_not_valley(ls: Seq<Seq<u8>>, i: int, w: int)
    requires
        w == ls[0].len() - 2,
        1 <= w,
        0 <= i < (ls.len() - 2) * w,
        !is_ground(ground(ls, cell(w, i).0, cell(w, i).1)),
    ensures
        !is_valley_text(ls),
{
    lemma_cell_in_box(ls.len() - 2, w, i);
}


/// The character that draws a blizzard with heading `d`.
pub open spec fn arrow(d: Direction) -> char {
    match d {
        Direction::Right => '>',
        Direction::Down => 'v',
        Direction::Left => '<',
        Direction::Up => '^',
    }
}

/// How many of the blizzards `bl` stand on `p`.
pub open spec fn count_at(bl: Seq<Blizzard>, p: (int, int)) -> nat
    decreases bl.len(),
{
    if bl.len() == 0 {
        0
    } else {
        count_at(bl.drop_last(), p) + if bpos(bl.last()) == p { 1nat } else { 0nat }
    }
}

/// The heading of the first of the blizzards `bl` on `p`.
pub open spec fn first_heading(bl: Seq<Blizzard>, p: (int, int)) -> Option<Direction>
    decreases bl.len(),
{
    if bl.len() == 0 {
        None
    } else {
        match first_heading(bl.drop_last(), p) {
            Some(d) => Some(d),
            None => if bpos(bl.last()) == p { Some(bl.last().heading) } else { None },
        }
    }
}

pub open spec fn digit_char(d: int) -> char {
    ((d + 48) as u8) as char
}

/// The decimal digits of `n`.
pub open spec fn digits(n: nat) -> Seq<char>
    decreases n,
{
    if n < 10 {
        seq![digit_char(n as int)]
    } else {
        digits(n / 10).push(digit_char((n % 10) as int))
    }
}

/// How a cell is drawn: a space when empty, the blizzard's arrow when it holds one, and
/// the number of blizzards when it holds more.
pub open spec fn cell_text(bl: Seq<Blizzard>, p: (int, int)) -> Seq<char> {
    let n = count_at(bl, p);
    if n == 0 {
        seq![' ']
    } else if n == 1 {
        seq![arrow(first_heading(bl, p)->Some_0)]
    } else {
        digits(n)
    }
}

/// The first `c` cells of row `r`, drawn.
pub open spec fn cells_text(bl: Seq<Blizzard>, r: int, c: int) -> Seq<char>
    decreases c,
{
    if c <= 0 {
        Seq::empty()
    } else {
        cells_text(bl, r, c - 1) + cell_text(bl, (r, c - 1))
    }
}

/// A wall row of an interior `w` wide with its gap over column `gap`, and a newline.
pub open spec fn wall_text(w: int, gap: int) -> Seq<char> {
    Seq::new((w + 2) as nat, |c: int| if c == gap + 1 { ' ' } else { '#' }).push('\n')
}

/// The first `r` interior rows, each between walls and ending with a newline.
pub open spec fn rows_text(bl: Seq<Blizzard>, w: int, r: int) -> Seq<char>
    decreases r,
{
    if r <= 0 {
        Seq::empty()
    } else {
        rows_text(bl, w, r - 1) + seq!['#'] + cells_text(bl, r - 1, w) + seq!['#', '\n']
    }
}

impl State {
    /// The picture of the valley: the top wall with the entrance, the interior rows and the
    /// bottom wall with the exit.
    pub open spec fn picture(&self) -> Seq<char> {
        wall_text(self.w(), self.start.1 as int) + rows_text(self.blizzards@, self.w(), self.h()) + wall_text(
            self.w(),
            self.end.1 as int,
        )
    }
}

fn digit_of(d: usize) -> (r: char)
    requires
        d < 10,
    ensures
        r == digit_char(d as int),
{
    ((d as u8) + 48) as char
}

/// The decimal digits of `n`.
fn decimal_chars(n: usize) -> (r: Vec<char>)
    ensures
        r@ == digits(n as nat),
    decreases n,
{
    if n < 10 {
        let r = vec![digit_of(n)];
        assert(r@ =~= seq![digit_char(n as int)]);
        r
    } else {
        let mut r = decimal_chars(n / 10);
        r.push(digit_of(n % 10));
        r
    }
}

fn push_all(out: &mut Vec<char>, more: &Vec<char>)
    ensures
        final(out)@ == old(out)@ + more@,
{
    let mut i: usize = 0;
    while i < more.len()
        invariant
            i <= more@.len(),
            out@ == old(out)@ + more@.subrange(0, i as int),
        decreases more@.len() - i,
    {
        out.push(more[i]);
        i += 1;
        assert(out@ =~= old(out)@ + more@.subrange(0, i as int));
    }
    assert(more@.subrange(0, more@.len() as int) =~= more@);
}

impl State {
    fn wall(&self, out: &mut Vec<char>, gap: i32)
        requires
            self.wf(),
        ensures
            final(out)@ == old(out)@ + wall_text(self.w(), gap as int),
    {
        let n: i32 = self.width + 2;
        let mut c: i32 = 0;
        while c < n
            invariant
                self.wf(),
                n == self.width + 2,
                0 <= c <= n,
                out@ =~= old(out)@ + Seq::new(c as nat, |k: int| if k == gap + 1 { ' ' } else { '#' }),
            decreases n - c,
        {
            out.push(if gap < i32::MAX && c == gap + 1 { ' ' } else { '#' });
            c += 1;
        }
        out.push('\n');
    }

    /// The picture of the valley as text (see `picture`).
    pub fn draw(&self) -> (r: String)
        requires
            self.wf(),
        ensures
            r@ == self.picture(),
    {
        let mut out: Vec<char> = Vec::new();
        self.wall(&mut out, self.start.1);
        let ghost head = out@;
        let mut row: i32 = 0;
        while row < self.height
            invariant
                self.wf(),
                0 <= row <= self.height,
                out@ == head + rows_text(self.blizzards@, self.w(), row as int),
            decreases self.height - row,
        {
            let ghost before = out@;
            out.push('#');
            let mut col: i32 = 0;
            while col < self.width
                invariant
                    self.wf(),
                    0 <= row < self.height,
                    0 <= col <= self.width,
                    out@ == before + seq!['#'] + cells_text(self.blizzards@, row as int, col as int),
                decreases self.width - col,
            {
                let cell = self.cell_chars(row, col);
                push_all(&mut out, &cell);
                col += 1;
            }
            out.push('#');
            out.push('\n');
            assert(out@ =~= before + seq!['#'] + cells_text(self.blizzards@, row as int, self.w()) + seq!['#', '\n']);
            row += 1;
        }
        self.wall(&mut out, self.end.1);
        string_of(out)
    }

    /// How the interior cell `(row, col)` is drawn.
    fn cell_chars(&self, row: i32, col: i32) -> (r: Vec<char>)
        ensures
            r@ == cell_text(self.blizzards@, (row as int, col as int)),
    {
        let ghost p = (row as int, col as int);
        let mut count: usize = 0;
        let mut first: Option<Direction> = None;
        let mut k: usize = 0;
        while k < self.blizzards.len()
            invariant
                p == (row as int, col as int),
                k <= self.blizzards@.len(),
                count == count_at(self.blizzards@.subrange(0, k as int), p),
                count <= k,
                first == first_heading(self.blizzards@.subrange(0, k as int), p),
            decreases self.blizzards@.len() - k,
        {
            assert(self.blizzards@.subrange(0, k + 1).drop_last() =~= self.blizzards@.subrange(0, k as int));
            let b = self.blizzards[k];
            if b.row == row && b.col == col {
                count += 1;
                if first.is_none() {
                    first = Some(b.heading);
                }
            }
            k += 1;
        }
        assert(self.blizzards@.subrange(0, self.blizzards@.len() as int) =~= self.blizzards@);
        if count == 0 {
            vec![' ']
        } else if count == 1 {
            proof {
                lemma_count_first(self.blizzards@, p);
            }
            let d = match first {
                Some(d) => d,
                None => Direction::Right,
            };
            let a = match d {
                Direction::Right => '>',
                Direction::Down => 'v',
                Direction::Left => '<',
                Direction::Up => '^',
            };
            let r = vec![a];
            assert(r@ =~= seq![arrow(first_heading(self.blizzards@, p)->Some_0)]);
            r
        } else {
            decimal_chars(count)
        }
    }
}

/// A cell holding a blizzard has a first one.
proof fn lemma_count_first(bl: Seq<Blizzard>, p: (int, int))
    ensures
        count_at(bl, p) > 0 ==> first_heading(bl, p) is Some,
    decreases bl.len(),
{
    if bl.len() > 0 {
        lemma_count_first(bl.drop_last(), p);
    }
}

impl SliceCache {
    /// The valley as it stands at tick `t`: the same interior and endpoints, with every
    /// blizzard where it is at that tick.
    pub fn state_at(&mut self, st: &State, t: usize) -> (r: State)
        requires
            st.wf(),
            old(self).wf(*st),
        ensures
            final(self).wf(*st),
            final(self).computed() > t,
            r.wf(),
            r.height == st.height && r.width == st.width && r.start == st.start && r.end == st.end,
            r.blizzards@.len() == st.blizzards@.len(),
            forall|k: int|
                0 <= k < r.blizzards@.len() ==> bpos(#[trigger] r.blizzards@[k]) == st.blizzard_at(k, t as nat)
                    && r.blizzards@[k].heading == st.blizzards@[k].heading,
    {
        self.extend_to(st, t);
        assert(self.slices@[t as int].matches(*st, t as nat));
        let src = &self.slices[t].blizzards;
        let mut blizzards: Vec<Blizzard> = Vec::new();
        let mut k: usize = 0;
        while k < src.len()
            invariant
                k <= src@.len(),
                blizzards@ == src@.subrange(0, k as int),
            decreases src@.len() - k,
        {
            blizzards.push(src[k]);
            k += 1;
        }
        assert(blizzards@ =~= src@);
        let ghost copied = blizzards@;
        let r = State { height: st.height, width: st.width, start: st.start, end: st.end, blizzards };
        assert forall|k: int| 0 <= k < r.blizzards@.len() implies #[trigger] r.interior(bpos(r.blizzards@[k])) by {
            assert(r.blizzards@[k] == src@[k]);
            assert(bpos(src@[k]) == st.blizzard_at(k, t as nat));
            assert(st.interior(bpos(st.blizzards@[k])));
            lemma_pos_in_box(st.blizzards@[k], st.h(), st.w(), t as nat);
        }
        r
    }
}

} // verus!
