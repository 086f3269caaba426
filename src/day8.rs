//! Tree heights on a grid: which trees can be seen from outside, and the best scenic score.
use vstd::prelude::*;
use take_until::TakeUntilExt;
use crate::text::{str_lines, text_lines, views};

verus! {

/// A grid of tree heights, stored row-major in one vector.
pub struct TreeGrid {
    pub height: usize,
    pub width: usize,
    pub values: Vec<u32>,
}

proof fn lemma_index(h: int, w: int, r: int, c: int)
    requires
        0 <= r < h,
        0 <= c < w,
    ensures
        0 <= r * w + c < h * w,
{
    assert(0 <= r * w + c < h * w) by (nonlinear_arith)
        requires
            0 <= r < h,
            0 <= c < w,
    ;
}

/// How many trees a tree of height `h` sees along `view`: up to and including the first
/// that is at least as tall, or all of them.
pub open spec fn viewing_distance(view: Seq<u32>, h: u32) -> nat
    decreases view.len(),
{
    if view.len() == 0 {
        0
    } else if view[0] >= h {
        1
    } else {
        1 + viewing_distance(view.drop_first(), h)
    }
}

/// Every tree of `view` is lower than `h`.
pub open spec fn all_lower(view: Seq<u32>, h: u32) -> bool {
    forall|k: int| 0 <= k < view.len() ==> #[trigger] view[k] < h
}

impl TreeGrid {
    pub open spec fn wf(&self) -> bool {
        self.values@.len() == self.height * self.width
    }

    pub open spec fn at_spec(&self, row: int, col: int) -> u32 {
        self.values@[row * self.width + col]
    }

    /// The trees met walking up from `(row, col)`, nearest first.
    pub open spec fn above_spec(&self, row: int, col: int) -> Seq<u32> {
        Seq::new(row as nat, |k: int| self.at_spec(row - 1 - k, col))
    }

    /// The trees met walking down from `(row, col)`, nearest first.
    pub open spec fn below_spec(&self, row: int, col: int) -> Seq<u32> {
        Seq::new((self.height - 1 - row) as nat, |k: int| self.at_spec(row + 1 + k, col))
    }

    /// The trees met walking left from `(row, col)`, nearest first.
    pub open spec fn left_spec(&self, row: int, col: int) -> Seq<u32> {
        Seq::new(col as nat, |k: int| self.at_spec(row, col - 1 - k))
    }

    /// The trees met walking right from `(row, col)`, nearest first.
    pub open spec fn right_spec(&self, row: int, col: int) -> Seq<u32> {
        Seq::new((self.width - 1 - col) as nat, |k: int| self.at_spec(row, col + 1 + k))
    }

    /// The tree at `(row, col)` can be seen from outside the grid along some direction.
    pub open spec fn visible(&self, row: int, col: int) -> bool {
        let h = self.at_spec(row, col);
        all_lower(self.left_spec(row, col), h) || all_lower(self.right_spec(row, col), h) || all_lower(
            self.above_spec(row, col),
            h,
        ) || all_lower(self.below_spec(row, col), h)
    }

    /// The product of the viewing distances in the four directions.
    pub open spec fn scenic_score(&self, row: int, col: int) -> int {
        let h = self.at_spec(row, col);
        (viewing_distance(self.left_spec(row, col), h) * viewing_distance(self.right_spec(row, col), h)
            * viewing_distance(self.above_spec(row, col), h) * viewing_distance(self.below_spec(row, col), h)) as int
    }

    /// How many of the first `n` trees, in row-major order, are visible.
    pub open spec fn visible_count(&self, n: int) -> int
        decreases n,
    {
        if n <= 0 {
            0
        } else {
            self.visible_count(n - 1) + if self.visible((n - 1) / self.width as int, (n - 1) % self.width as int) {
                1int
            } else {
                0int
            }
        }
    }

    /// The best scenic score among the first `n` trees in row-major order (0 for none).
    pub open spec fn best_score(&self, n: int) -> int
        decreases n,
    {
        if n <= 0 {
            0
        } else {
            let s = self.scenic_score((n - 1) / self.width as int, (n - 1) % self.width as int);
            let b = self.best_score(n - 1);
            if s > b {
                s
            } else {
                b
            }
        }
    }

    /// The height of the tree at `(row, col)`.
    pub fn at(&self, row: usize, col: usize) -> (r: u32)
        requires
            self.wf(),
            row < self.height,
            col < self.width,
        ensures
            r == self.at_spec(row as int, col as int),
    {
        let n = self.values.len();
        proof {
            lemma_index(self.height as int, self.width as int, row as int, col as int);
        }
        self.values[row * self.width + col]
    }

    /// The trees above `(row, col)`, nearest first.
    pub fn above(&self, row: usize, col: usize) -> (r: Vec<u32>)
        requires
            self.wf(),
            row < self.height,
            col < self.width,
        ensures
            r@ == self.above_spec(row as int, col as int),
    {
        let mut r: Vec<u32> = Vec::new();
        let mut k: usize = 0;
        while k < row
            invariant
                self.wf(),
                row < self.height,
                col < self.width,
                k <= row,
                r@ =~= self.above_spec(row as int, col as int).subrange(0, k as int),
            decreases row - k,
        {
            r.push(self.at(row - 1 - k, col));
            k += 1;
        }
        r
    }

    /// The trees below `(row, col)`, nearest first.
    pub fn below(&self, row: usize, col: usize) -> (r: Vec<u32>)
        requires
            self.wf(),
            row < self.height,
            col < self.width,
        ensures
            r@ == self.below_spec(row as int, col as int),
    {
        let mut r: Vec<u32> = Vec::new();
        let mut k: usize = row + 1;
        while k < self.height
            invariant
                self.wf(),
                row < self.height,
                col < self.width,
                row + 1 <= k <= self.height,
                r@ =~= self.below_spec(row as int, col as int).subrange(0, k - row - 1),
            decreases self.height - k,
        {
            r.push(self.at(k, col));
            k += 1;
        }
        r
    }

    /// The trees left of `(row, col)`, nearest first.
    pub fn left(&self, row: usize, col: usize) -> (r: Vec<u32>)
        requires
            self.wf(),
            row < self.height,
            col < self.width,
        ensures
            r@ == self.left_spec(row as int, col as int),
    {
        let mut r: Vec<u32> = Vec::new();
        let mut k: usize = 0;
        while k < col
            invariant
                self.wf(),
                row < self.height,
                col < self.width,
                k <= col,
                r@ =~= self.left_spec(row as int, col as int).subrange(0, k as int),
            decreases col - k,
        {
            r.push(self.at(row, col - 1 - k));
            k += 1;
        }
        r
    }

    /// The trees right of `(row, col)`, nearest first.
    pub fn right(&self, row: usize, col: usize) -> (r: Vec<u32>)
        requires
            self.wf(),
            row < self.height,
            col < self.width,
        ensures
            r@ == self.right_spec(row as int, col as int),
    {
        let mut r: Vec<u32> = Vec::new();
        let mut k: usize = col + 1;
        while k < self.width
            invariant
                self.wf(),
                row < self.height,
                col < self.width,
                col + 1 <= k <= self.width,
                r@ =~= self.right_spec(row as int, col as int).subrange(0, k - col - 1),
            decreases self.width - k,
        {
            r.push(self.at(row, k));
            k += 1;
        }
        r
    }
}

fn lower_than_all(view: &Vec<u32>, h: u32) -> (r: bool)
    ensures
        r == all_lower(view@, h),
{
    let mut k: usize = 0;
    while k < view.len()
        invariant
            k <= view@.len(),
            forall|j: int| 0 <= j < k ==> #[trigger] view@[j] < h,
        decreases view@.len() - k,
    {
        if view[k] >= h {
            return false;
        }
        k += 1;
    }
    true
}

/// Whether a tree of height `tree` stops the view of a tree of height `from`.
pub fn blocks(tree: u32, from: u32) -> (r: bool)
    ensures
        r == (tree >= from),
{
    tree >= from
}

proof fn lemma_distance_bound(view: Seq<u32>, h: u32)
    ensures
        viewing_distance(view, h) <= view.len(),
    decreases view.len(),
{
    if view.len() > 0 {
        lemma_distance_bound(view.drop_first(), h);
    }
}

/// Relies on `take_until::TakeUntilExt::take_until`, which yields the items up to and
/// including the first one for which the predicate holds (all of them when there is none);
/// counts them.
#[verifier::external_body]
fn count_until_blocked(view: &Vec<u32>, h: u32) -> (r: usize)
    ensures
        r == viewing_distance(view@, h),
{
    view.iter().take_until(|t: &&u32| blocks(**t, h)).count()
}

/// Every byte of `s` is a decimal digit.
pub open spec fn all_digits(s: Seq<u8>) -> bool {
    forall|col: int| 0 <= col < s.len() ==> 48 <= #[trigger] s[col] <= 57
}

/// `ls` is at least one line, all of the same positive length and all digits.
pub open spec fn is_grid(ls: Seq<Seq<u8>>) -> bool {
    &&& ls.len() > 0
    &&& ls[0].len() > 0
    &&& forall|row: int| 0 <= row < ls.len() ==> (#[trigger] ls[row]).len() == ls[0].len() && all_digits(ls[row])
}

/// The grid whose rows are the lines of `input`; `None` unless there is at least one line,
/// every line has the same positive length and holds digits only.
pub fn generator(input: &str) -> (r: Option<TreeGrid>)
    ensures
        match r {
            Some(g) => {
                let ls = text_lines(input);
                &&& is_grid(ls)
                &&& g.wf()
                &&& g.height == ls.len() && g.height > 0
                &&& g.width == ls[0].len() && g.width > 0
                &&& forall|row: int, col: int|
                    0 <= row < g.height && 0 <= col < g.width ==> ls[row].len() == g.width && #[trigger] g.at_spec(
                        row,
                        col,
                    ) == ls[row][col] - 48 && 48 <= ls[row][col] <= 57
            },
            None => !is_grid(text_lines(input)),
        },
{
    let rows = str_lines(input);
    let ghost ls = views(rows@);
    if rows.len() == 0 || rows[0].len() == 0 {
        return None;
    }
    let width = rows[0].len();
    let mut values: Vec<u32> = Vec::new();
    let mut row: usize = 0;
    while row < rows.len()
        invariant
            ls == views(rows@),
            ls == text_lines(input),
            ls.len() > 0,
            width == ls[0].len(),
            width > 0,
            row <= ls.len(),
            values@.len() == row * width,
            forall|i: int| 0 <= i < row ==> (#[trigger] ls[i]).len() == width && all_digits(ls[i]),
            forall|r: int, c: int| 0 <= r < row && 0 <= c < width ==> #[trigger] values@[r * width + c] == ls[r][c] - 48,
        decreases ls.len() - row,
    {
        let line = &rows[row];
        assert(line@ == ls[row as int]);
        if line.len() != width {
            assert(ls[row as int].len() != ls[0].len());
            return None;
        }
        let mut col: usize = 0;
        while col < width
            invariant
                ls == text_lines(input),
                ls.len() > 0,
                width == ls[0].len(),
                line@ == ls[row as int],
                line@.len() == width,
                width > 0,
                row < ls.len(),
                col <= width,
                values@.len() == row * width + col,
                forall|c: int| 0 <= c < col ==> 48 <= #[trigger] line@[c] <= 57,
                forall|r: int, c: int| 0 <= r < row && 0 <= c < width ==> #[trigger] values@[r * width + c] == ls[r][c] - 48,
                forall|c: int| 0 <= c < col ==> #[trigger] values@[row * width + c] == ls[row as int][c] - 48,
            decreases width - col,
        {
            let b = line[col];
            if !(48 <= b && b <= 57) {
                assert(!all_digits(ls[row as int]));
                return None;
            }
            let ghost before = values@;
            values.push((b - 48) as u32);
            assert forall|r: int, c: int| 0 <= r < row && 0 <= c < width implies #[trigger] values@[r * width + c]
                == ls[r][c] - 48 by {
                lemma_index(row as int, width as int, r, c);
                assert(values@[r * width + c] == before[r * width + c]);
            }
            col += 1;
        }
        assert((row + 1) * width == row * width + width) by (nonlinear_arith);
        row += 1;
    }
    Some(TreeGrid { height: rows.len(), width, values })
}

/// How many trees can be seen from outside the grid.
pub fn part1(input: &TreeGrid) -> (r: usize)
    requires
        input.wf(),
        input.width > 0,
    ensures
        r == input.visible_count(input.height * input.width),
{
    let n = input.values.len();
    let mut visible: usize = 0;
    let mut i: usize = 0;
    while i < n
        invariant
            input.wf(),
            input.width > 0,
            n == input.height * input.width,
            i <= n,
            visible == input.visible_count(i as int),
            visible <= i,
        decreases n - i,
    {
        let row = i / input.width;
        let col = i % input.width;
        assert(row < input.height) by (nonlinear_arith)
            requires
                i < input.height * input.width,
                row == i / input.width,
                input.width > 0,
        ;
        let h = input.at(row, col);
        let l = input.left(row, col);
        let rt = input.right(row, col);
        let a = input.above(row, col);
        let b = input.below(row, col);
        if lower_than_all(&l, h) || lower_than_all(&rt, h) || lower_than_all(&a, h) || lower_than_all(&b, h) {
            visible += 1;
        }
        i += 1;
    }
    visible
}

/// The largest scenic score of any tree.
pub fn part2(input: &TreeGrid) -> (r: usize)
    requires
        input.wf(),
        input.width > 0,
        input.height * input.height * input.height * input.height <= usize::MAX,
        input.width * input.width * input.width * input.width <= usize::MAX,
    ensures
        r == input.best_score(input.height * input.width),
{
    let n = input.values.len();
    let mut best: usize = 0;
    let mut i: usize = 0;
    while i < n
        invariant
            input.wf(),
            input.width > 0,
            input.height * input.height * input.height * input.height <= usize::MAX,
            input.width * input.width * input.width * input.width <= usize::MAX,
            n == input.height * input.width,
            i <= n,
            best == input.best_score(i as int),
        decreases n - i,
    {
        let row = i / input.width;
        let col = i % input.width;
        assert(row < input.height) by (nonlinear_arith)
            requires
                i < input.height * input.width,
                row == i / input.width,
                input.width > 0,
        ;
        let h = input.at(row, col);
        let l = count_until_blocked(&input.left(row, col), h);
        let rt = count_until_blocked(&input.right(row, col), h);
        let a = count_until_blocked(&input.above(row, col), h);
        let b = count_until_blocked(&input.below(row, col), h);
        proof {
            lemma_distance_bound(input.left_spec(row as int, col as int), h);
            lemma_distance_bound(input.right_spec(row as int, col as int), h);
            lemma_distance_bound(input.above_spec(row as int, col as int), h);
            lemma_distance_bound(input.below_spec(row as int, col as int), h);
            let hh = input.height as int;
            let ww = input.width as int;
            assert(hh >= 1);
            assert(l * rt * a * b <= ww * ww * hh * hh) by (nonlinear_arith)
                requires
                    0 <= l <= ww,
                    0 <= rt <= ww,
                    0 <= a <= hh,
                    0 <= b <= hh,
            ;
            assert(ww * ww * hh * hh <= usize::MAX) by (nonlinear_arith)
                requires
                    hh * hh * hh * hh <= usize::MAX,
                    ww * ww * ww * ww <= usize::MAX,
                    hh >= 0,
                    ww >= 0,
            ;
            assert(l * rt <= usize::MAX && l * rt * a <= usize::MAX) by (nonlinear_arith)
                requires
                    0 <= l <= ww,
                    0 <= rt <= ww,
                    0 <= a <= hh,
                    ww * ww * ww * ww <= usize::MAX,
                    hh * hh * hh * hh <= usize::MAX,
                    ww * ww * hh * hh <= usize::MAX,
                    ww >= 1,
                    hh >= 1,
            ;
        }
        let score = l * rt * a * b;
        if score > best {
            best = score;
        }
        i += 1;
    }
    best
}

} // verus!
