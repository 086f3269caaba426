//! Falling rocks in a chamber seven units wide, pushed by jets of gas: the height of the
//! tower after a number of rocks. Rows are bitmaps, bit 0 the rightmost column.
use vstd::prelude::*;
use vstd::string::StringSliceAdditionalSpecFns;

verus! {

/// The settled rock, one bitmap per row, lowest row first.
pub struct Board {
    pub data: Vec<u8>,
}

/// A rock shape, one bitmap per row, lowest row first.
#[derive(Clone)]
pub struct Piece {
    pub data: Vec<u8>,
}

/// The rock fits with its lowest row at height `base`: no row of it meets settled rock.
pub open spec fn fits(board: Seq<u8>, piece: Seq<u8>, base: int) -> bool {
    forall|r: int| 0 <= r < piece.len() && base + r < board.len() ==> #[trigger] (board[base + r] & piece[r]) == 0
}

/// The board with the rock added at height `base`, grown to hold it.
pub open spec fn placed(board: Seq<u8>, piece: Seq<u8>, base: int) -> Seq<u8> {
    let n = if board.len() >= base + piece.len() { board.len() as int } else { base + piece.len() };
    Seq::new(
        n as nat,
        |i: int|
            {
                let b: u8 = if i < board.len() { board[i] } else { 0 };
                if base <= i < base + piece.len() { b | piece[i - base] } else { b }
            },
    )
}

/// The rock moved one column left, unless a row of it touches the left wall (bit 6).
pub open spec fn shifted_left_spec(piece: Seq<u8>) -> Seq<u8> {
    if exists|i: int| 0 <= i < piece.len() && #[trigger] (piece[i] & 64) != 0 {
        piece
    } else {
        Seq::new(piece.len(), |i: int| (piece[i] << 1u8) as u8)
    }
}

/// The rock moved one column right, unless a row of it touches the right wall (bit 0).
pub open spec fn shifted_right_spec(piece: Seq<u8>) -> Seq<u8> {
    if exists|i: int| 0 <= i < piece.len() && #[trigger] (piece[i] & 1) != 0 {
        piece
    } else {
        Seq::new(piece.len(), |i: int| (piece[i] >> 1u8) as u8)
    }
}

/// Jets `<` and `>` only, at least one.
pub open spec fn valid_winds(winds: Seq<u8>) -> bool {
    winds.len() > 0 && forall|i: int| 0 <= i < winds.len() ==> #[trigger] winds[i] == 60 || winds[i] == 62
}

/// The rock falling from height `y` with the next jet `w`: pushed by the jet when it
/// fits, then down one row, until it cannot go lower; the board with it settled and the
/// next jet.
pub open spec fn fall(board: Seq<u8>, piece: Seq<u8>, y: nat, winds: Seq<u8>, w: nat) -> (Seq<u8>, nat)
    decreases y,
{
    let shifted = if winds[w as int] == 60 { shifted_left_spec(piece) } else { shifted_right_spec(piece) };
    let w2 = ((w + 1) % winds.len()) as nat;
    let moved = if fits(board, shifted, y as int) { shifted } else { piece };
    if y == 0 || !fits(board, moved, y - 1) {
        (placed(board, moved, y as int), w2)
    } else {
        fall(board, moved, (y - 1) as nat, winds, w2)
    }
}

/// The `i`-th rock shape, in the order they fall.
pub open spec fn base_piece(i: int) -> Seq<u8> {
    if i == 0 {
        seq![30u8]
    } else if i == 1 {
        seq![8u8, 28, 8]
    } else if i == 2 {
        seq![28u8, 4, 4]
    } else if i == 3 {
        seq![16u8, 16, 16, 16]
    } else {
        seq![24u8, 24]
    }
}

/// The board and the next jet after `n` rocks, from an empty chamber and the first jet.
pub open spec fn after(winds: Seq<u8>, n: nat) -> (Seq<u8>, nat)
    decreases n,
{
    if n == 0 {
        (Seq::empty(), 0)
    } else {
        let (b, w) = after(winds, (n - 1) as nat);
        fall(b, base_piece((n - 1) % 5), (b.len() + 3) as nat, winds, w)
    }
}

proof fn lemma_after_bounds(winds: Seq<u8>, n: nat)
    requires
        valid_winds(winds),
    ensures
        after(winds, n).1 < winds.len(),
        after(winds, n).0.len() <= 4 * n,
    decreases n,
{
    if n > 0 {
        lemma_after_bounds(winds, (n - 1) as nat);
        let (b, w) = after(winds, (n - 1) as nat);
        lemma_fall_bounds(b, base_piece((n - 1) % 5), (b.len() + 3) as nat, winds, w);
    }
}

proof fn lemma_fall_bounds(board: Seq<u8>, piece: Seq<u8>, y: nat, winds: Seq<u8>, w: nat)
    requires
        valid_winds(winds),
        w < winds.len(),
        y <= board.len() + 3,
        piece.len() <= 4,
    ensures
        fall(board, piece, y, winds, w).1 < winds.len(),
        fall(board, piece, y, winds, w).0.len() <= board.len() + 4,
    decreases y,
{
    let shifted = if winds[w as int] == 60 { shifted_left_spec(piece) } else { shifted_right_spec(piece) };
    let moved = if fits(board, shifted, y as int) { shifted } else { piece };
    if y == 0 || !fits(board, moved, y - 1) {
        if y > board.len() {
            // Nothing lies above the board, so the rock would have gone lower.
            assert(fits(board, moved, y - 1));
        }
    } else {
        lemma_fall_bounds(board, moved, (y - 1) as nat, winds, ((w + 1) % winds.len()) as nat);
    }
}

impl Board {
    /// The height of the tower.
    pub fn height(&self) -> (r: usize)
        ensures
            r == self.data@.len(),
    {
        self.data.len()
    }

    /// Whether `piece` fits with its lowest row at height `base_height`.
    pub fn can_place(&self, piece: &Piece, base_height: usize) -> (r: bool)
        ensures
            r == fits(self.data@, piece.data@, base_height as int),
    {
        let mut row: usize = 0;
        while row < piece.height()
            invariant
                row <= piece.data@.len(),
                forall|r: int|
                    0 <= r < row && base_height + r < self.data@.len() ==> #[trigger] (self.data@[base_height + r]
                        & piece.data@[r]) == 0,
            decreases piece.data@.len() - row,
        {
            if base_height >= self.height() || row >= self.height() - base_height {
                assert forall|r: int|
                    0 <= r < piece.data@.len() && base_height + r < self.data@.len() implies #[trigger] (self.data@[base_height
                    + r] & piece.data@[r]) == 0 by {
                    assert(r < row);
                }
                return true;
            }
            if self.data[base_height + row] & piece.data[row] != 0 {
                return false;
            }
            row += 1;
        }
        true
    }

    /// Adds `piece` with its lowest row at height `base_height`, growing the board as needed.
    pub fn add_piece(&mut self, piece: &Piece, base_height: usize)
        requires
            base_height <= old(self).data@.len(),
            base_height + piece.data@.len() < usize::MAX,
        ensures
            final(self).data@ == placed(old(self).data@, piece.data@, base_height as int),
    {
        let ghost start = self.data@;
        let mut row: usize = 0;
        while row < piece.height()
            invariant
                base_height <= start.len(),
                base_height + piece.data@.len() < usize::MAX,
                row <= piece.data@.len(),
                self.data@.len() == if start.len() >= base_height + row { start.len() as int } else { base_height + row },
                forall|i: int|
                    0 <= i < self.data@.len() ==> #[trigger] self.data@[i] == {
                        let b: u8 = if i < start.len() { start[i] } else { 0 };
                        if base_height <= i < base_height + row { b | piece.data@[i - base_height] } else { b }
                    },
            decreases piece.data@.len() - row,
        {
            if base_height + row >= self.height() {
                self.data.push(0);
            }
            let idx = base_height + row;
            let v = self.data[idx] | piece.data[row];
            proof {
                let b: u8 = if idx < start.len() { start[idx as int] } else { 0 };
                assert(self.data@[idx as int] == b);
                assert(b | 0 == b) by (bit_vector);
            }
            self.data.set(idx, v);
            row += 1;
        }
        assert(self.data@ =~= placed(start, piece.data@, base_height as int));
    }

    /// Drops `initial_piece` from three rows above the tower, starting with jet
    /// `initial_wind`, until it settles; returns the next jet.
    pub fn drop(&mut self, initial_piece: &Piece, winds: &[u8], initial_wind: usize) -> (r: usize)
        requires
            valid_winds(winds@),
            initial_wind < winds@.len(),
            initial_piece.data@.len() <= 4,
            old(self).data@.len() + 4 < usize::MAX,
        ensures
            (final(self).data@, r as nat) == fall(
                old(self).data@,
                initial_piece.data@,
                (old(self).data@.len() + 3) as nat,
                winds@,
                initial_wind as nat,
            ),
    {
        let ghost board = self.data@;
        let ghost target = fall(board, initial_piece.data@, (board.len() + 3) as nat, winds@, initial_wind as nat);
        let mut piece = initial_piece.clone_piece();
        let mut piece_y = self.height() + 3;
        let mut wind = initial_wind;
        loop
            invariant
                self.data@ == board,
                board == old(self).data@,
                target == fall(board, initial_piece.data@, (board.len() + 3) as nat, winds@, initial_wind as nat),
                valid_winds(winds@),
                wind < winds@.len(),
                piece.data@.len() <= 4,
                piece_y <= board.len() + 3,
                board.len() + 4 < usize::MAX,
                fall(board, piece.data@, piece_y as nat, winds@, wind as nat) == target,
            decreases piece_y,
        {
            let ghost cur = piece.data@;
            let shifted = if winds[wind] == 60 { piece.shifted_left() } else { piece.shifted_right() };
            let next_wind = (wind + 1) % winds.len();
            if self.can_place(&shifted, piece_y) {
                piece = shifted;
            }
            proof {
                let moved = piece.data@;
                assert(fall(board, cur, piece_y as nat, winds@, wind as nat) == if piece_y == 0 || !fits(
                    board,
                    moved,
                    piece_y - 1,
                ) {
                    (placed(board, moved, piece_y as int), next_wind as nat)
                } else {
                    fall(board, moved, (piece_y - 1) as nat, winds@, next_wind as nat)
                });
            }
            if piece_y == 0 || !self.can_place(&piece, piece_y - 1) {
                proof {
                    if piece_y > board.len() {
                        assert(fits(board, piece.data@, piece_y - 1));
                    }
                }
                self.add_piece(&piece, piece_y);
                assert(self.data@ == placed(board, piece.data@, piece_y as int));
                assert((self.data@, next_wind as nat) == target);
                return next_wind;
            }
            piece_y -= 1;
            wind = next_wind;
        }
    }
}

impl Piece {
    /// The number of rows of the rock.
    pub fn height(&self) -> (r: usize)
        ensures
            r == self.data@.len(),
    {
        self.data.len()
    }

    /// A copy of the rock.
    pub fn clone_piece(&self) -> (r: Piece)
        ensures
            r.data@ == self.data@,
    {
        let mut data: Vec<u8> = Vec::new();
        let mut i: usize = 0;
        while i < self.data.len()
            invariant
                i <= self.data@.len(),
                data@ == self.data@.subrange(0, i as int),
            decreases self.data@.len() - i,
        {
            data.push(self.data[i]);
            i += 1;
        }
        Piece { data }
    }

    /// Whether the cell in row `row`, column bit `col`, holds rock.
    pub fn filled(&self, row: usize, col: u8) -> (r: bool)
        requires
            row < self.data@.len(),
            col < 8,
        ensures
            r == ((self.data@[row as int] & (1u8 << col)) != 0),
    {
        let mask: u8 = 1u8 << col;
        self.data[row] & mask != 0
    }

    /// The rock one column to the left, or unmoved when it touches the left wall.
    pub fn shifted_left(&self) -> (r: Piece)
        ensures
            r.data@ == shifted_left_spec(self.data@),
    {
        let mut i: usize = 0;
        while i < self.height()
            invariant
                i <= self.data@.len(),
                forall|j: int| 0 <= j < i ==> #[trigger] (self.data@[j] & 64) == 0,
            decreases self.data@.len() - i,
        {
            if self.filled(i, 6) {
                assert(1u8 << 6u8 == 64) by (bit_vector);
                return self.clone_piece();
            }
            assert(1u8 << 6u8 == 64) by (bit_vector);
            i += 1;
        }
        let mut data: Vec<u8> = Vec::new();
        let mut k: usize = 0;
        while k < self.data.len()
            invariant
                k <= self.data@.len(),
                data@ =~= Seq::new(k as nat, |j: int| (self.data@[j] << 1u8) as u8),
            decreases self.data@.len() - k,
        {
            data.push(self.data[k] << 1u8);
            k += 1;
        }
        Piece { data }
    }

    /// The rock one column to the right, or unmoved when it touches the right wall.
    pub fn shifted_right(&self) -> (r: Piece)
        ensures
            r.data@ == shifted_right_spec(self.data@),
    {
        let mut i: usize = 0;
        while i < self.height()
            invariant
                i <= self.data@.len(),
                forall|j: int| 0 <= j < i ==> #[trigger] (self.data@[j] & 1) == 0,
            decreases self.data@.len() - i,
        {
            if self.filled(i, 0) {
                assert(1u8 << 0u8 == 1) by (bit_vector);
                return self.clone_piece();
            }
            assert(1u8 << 0u8 == 1) by (bit_vector);
            i += 1;
        }
        let mut data: Vec<u8> = Vec::new();
        let mut k: usize = 0;
        while k < self.data.len()
            invariant
                k <= self.data@.len(),
                data@ =~= Seq::new(k as nat, |j: int| (self.data@[j] >> 1u8) as u8),
            decreases self.data@.len() - k,
        {
            data.push(self.data[k] >> 1u8);
            k += 1;
        }
        Piece { data }
    }
}

/// The five rock shapes in the order they fall.
pub fn base_pieces() -> (r: Vec<Piece>)
    ensures
        r@.len() == 5,
        forall|i: int| 0 <= i < 5 ==> (#[trigger] r@[i]).data@ == base_piece(i),
{
    let r = vec![
        Piece { data: vec![0b0011110] },
        Piece { data: vec![0b0001000, 0b0011100, 0b0001000] },
        Piece { data: vec![0b0011100, 0b0000100, 0b0000100] },
        Piece { data: vec![0b0010000, 0b0010000, 0b0010000, 0b0010000] },
        Piece { data: vec![0b0011000, 0b0011000] },
    ];
    assert(r@[0].data@ =~= base_piece(0));
    assert(r@[1].data@ =~= base_piece(1));
    assert(r@[2].data@ =~= base_piece(2));
    assert(r@[3].data@ =~= base_piece(3));
    assert(r@[4].data@ =~= base_piece(4));
    r
}

/// The jets of `input`: its bytes without a final newline.
pub open spec fn jets(input: Seq<u8>) -> Seq<u8> {
    if input.len() > 0 && input.last() == 10 { input.drop_last() } else { input }
}

/// The height of the tower after `count` rocks have fallen, pushed by the jets of
/// `input` in turn, over and over.
pub fn tower_height(input: &[u8], count: usize) -> (r: usize)
    requires
        valid_winds(jets(input@)),
        count <= 1_000_000,
    ensures
        r == after(jets(input@), count as nat).0.len(),
{
    let n = if input.len() > 0 && input[input.len() - 1] == 10 { input.len() - 1 } else { input.len() };
    let winds = crate::text::slice_of(input, 0, n);
    assert(winds@ =~= jets(input@));
    let mut wind: usize = 0;
    let mut board = Board { data: Vec::new() };
    let pieces = base_pieces();
    let mut num_pieces: usize = 0;
    while num_pieces < count
        invariant
            valid_winds(winds@),
            count <= 1_000_000,
            num_pieces <= count,
            pieces@.len() == 5,
            forall|i: int| 0 <= i < 5 ==> (#[trigger] pieces@[i]).data@ == base_piece(i),
            (board.data@, wind as nat) == after(winds@, num_pieces as nat),
        decreases count - num_pieces,
    {
        proof {
            lemma_after_bounds(winds@, num_pieces as nat);
        }
        let piece = &pieces[num_pieces % 5];
        assert(piece.data@ == base_piece((num_pieces % 5) as int));
        wind = board.drop(piece, winds.as_slice(), wind);
        num_pieces += 1;
    }
    board.height()
}

/// The height of the tower after 2022 rocks.
pub fn part1(input: &str) -> (r: usize)
    requires
        valid_winds(jets(input.spec_bytes())),
    ensures
        r == after(jets(input.spec_bytes()), 2022).0.len(),
{
    tower_height(input.as_bytes(), 2022)
}


/// How many rocks fall in part two.
pub const TRILLION: u64 = 1_000_000_000_000;

/// The height of the tower after `n` rocks.
pub open spec fn height_after(winds: Seq<u8>, n: nat) -> int {
    after(winds, n).0.len() as int
}

/// What decides the future after `n` rocks, as far as it is compared here: the next
/// shape, the next jet and the top 30 rows.
pub open spec fn key(winds: Seq<u8>, n: nat) -> (int, int, Seq<u8>) {
    let (b, w) = after(winds, n);
    ((n % 5) as int, w as int, b.subrange(b.len() - 30, b.len() as int))
}

/// After `a` and after `b` rocks (`1 <= a < b`) the tower is at least 30 rows high and
/// the keys agree.
pub open spec fn is_repeat(winds: Seq<u8>, a: int, b: int) -> bool {
    &&& 1 <= a < b
    &&& height_after(winds, a as nat) >= 30
    &&& height_after(winds, b as nat) >= 30
    &&& key(winds, a as nat) == key(winds, b as nat)
}

/// No repeat ends at or before `n`.
pub open spec fn no_repeat_upto(winds: Seq<u8>, n: int) -> bool {
    forall|a: int, b: int| #![trigger is_repeat(winds, a, b)] b <= n ==> !is_repeat(winds, a, b)
}

/// The first repeat `(a, b)`: the least `b`, and the `a` it repeats.
pub open spec fn first_repeat(winds: Seq<u8>) -> (int, int) {
    choose|ab: (int, int)| is_repeat(winds, ab.0, ab.1) && no_repeat_upto(winds, ab.1 - 1)
}

/// The height after a trillion rocks, taken as the height after the first repeat's `a`
/// rocks, plus the height one cycle (`b - a` rocks) adds times the number of whole cycles
/// that fit, plus the height the remaining rocks add after `b`.
pub open spec fn extrapolated(winds: Seq<u8>) -> int {
    let (a, b) = first_repeat(winds);
    let cycle = b - a;
    let cycles = (TRILLION - a) / cycle;
    let rest = (TRILLION - a) % cycle;
    height_after(winds, a as nat) + cycles * (height_after(winds, b as nat) - height_after(winds, a as nat))
        + (height_after(winds, (b + rest) as nat) - height_after(winds, b as nat))
}

proof fn lemma_after_grows(winds: Seq<u8>, n: nat)
    requires
        valid_winds(winds),
    ensures
        after(winds, n).0.len() <= after(winds, n + 1).0.len(),
{
    let (b, w) = after(winds, n);
    lemma_after_bounds(winds, n);
    lemma_fall_grows(b, base_piece((n % 5) as int), (b.len() + 3) as nat, winds, w);
}

proof fn lemma_fall_grows(board: Seq<u8>, piece: Seq<u8>, y: nat, winds: Seq<u8>, w: nat)
    requires
        valid_winds(winds),
        w < winds.len(),
    ensures
        fall(board, piece, y, winds, w).0.len() >= board.len(),
    decreases y,
{
    let shifted = if winds[w as int] == 60 { shifted_left_spec(piece) } else { shifted_right_spec(piece) };
    let moved = if fits(board, shifted, y as int) { shifted } else { piece };
    if !(y == 0 || !fits(board, moved, y - 1)) {
        lemma_fall_grows(board, moved, (y - 1) as nat, winds, ((w + 1) % winds.len()) as nat);
    }
}

proof fn lemma_height_mono(winds: Seq<u8>, a: nat, b: nat)
    requires
        valid_winds(winds),
        a <= b,
    ensures
        height_after(winds, a) <= height_after(winds, b),
    decreases b - a,
{
    if a < b {
        lemma_height_mono(winds, a, (b - 1) as nat);
        lemma_after_grows(winds, (b - 1) as nat);
    }
}

fn same_rows(x: &Vec<u8>, y: &Vec<u8>) -> (r: bool)
    ensures
        r == (x@ == y@),
{
    if x.len() != y.len() {
        return false;
    }
    let mut i: usize = 0;
    while i < x.len()
        invariant
            x@.len() == y@.len(),
            i <= x@.len(),
            forall|j: int| 0 <= j < i ==> x@[j] == y@[j],
        decreases x@.len() - i,
    {
        if x[i] != y[i] {
            return false;
        }
        i += 1;
    }
    assert(x@ =~= y@);
    true
}

proof fn lemma_height_step(winds: Seq<u8>, a: nat, b: nat)
    requires
        valid_winds(winds),
        a <= b,
    ensures
        height_after(winds, b) <= height_after(winds, a) + 4 * (b - a),
    decreases b - a,
{
    if a < b {
        lemma_height_step(winds, a, (b - 1) as nat);
        let (bd, w) = after(winds, (b - 1) as nat);
        lemma_after_bounds(winds, (b - 1) as nat);
        lemma_fall_bounds(bd, base_piece((b - 1) % 5), (bd.len() + 3) as nat, winds, w);
    }
}

/// With `(a, b)` a repeat and none ending before `b`, it is the first repeat.
proof fn lemma_first_repeat(winds: Seq<u8>, a: int, b: int)
    requires
        is_repeat(winds, a, b),
        no_repeat_upto(winds, b - 1),
    ensures
        first_repeat(winds) == (a, b),
{
    assert(is_repeat(winds, (a, b).0, (a, b).1) && no_repeat_upto(winds, (a, b).1 - 1));
    let ab = first_repeat(winds);
    assert(is_repeat(winds, ab.0, ab.1) && no_repeat_upto(winds, ab.1 - 1));
    if ab.1 < b {
        assert(!is_repeat(winds, ab.0, ab.1));
    } else if ab.1 > b {
        assert(!is_repeat(winds, a, b));
    }
    if ab.0 < a {
        assert(is_repeat(winds, ab.0, a));
    } else if ab.0 > a {
        assert(is_repeat(winds, a, ab.0));
    }
}

/// Drops the rocks numbered `from .. from + count`, continuing `board` and `wind`.
fn drop_more(board: &mut Board, wind: usize, winds: &Vec<u8>, pieces: &Vec<Piece>, from: usize, count: usize) -> (r: usize)
    requires
        valid_winds(winds@),
        pieces@.len() == 5,
        forall|i: int| 0 <= i < 5 ==> (#[trigger] pieces@[i]).data@ == base_piece(i),
        (old(board).data@, wind as nat) == after(winds@, from as nat),
        from + count <= 4_000_000,
    ensures
        (final(board).data@, r as nat) == after(winds@, (from + count) as nat),
{
    let mut w = wind;
    let mut n: usize = from;
    while n < from + count
        invariant
            valid_winds(winds@),
            pieces@.len() == 5,
            forall|i: int| 0 <= i < 5 ==> (#[trigger] pieces@[i]).data@ == base_piece(i),
            from <= n <= from + count,
            from + count <= 4_000_000,
            (board.data@, w as nat) == after(winds@, n as nat),
        decreases from + count - n,
    {
        proof {
            lemma_after_bounds(winds@, n as nat);
        }
        w = board.drop(&pieces[n % 5], winds.as_slice(), w);
        n += 1;
    }
    w
}

/// The height of the tower after a trillion rocks, found by following the fall until the
/// shape, jet and top 30 rows repeat (see `extrapolated`).
pub fn part2(input: &str) -> (r: u64)
    requires
        valid_winds(jets(input.spec_bytes())),
        exists|a: int, b: int| b <= 1_000_000 && #[trigger] is_repeat(jets(input.spec_bytes()), a, b),
    ensures
        r == extrapolated(jets(input.spec_bytes())),
{
    let bytes = input.as_bytes();
    let n = if bytes.len() > 0 && bytes[bytes.len() - 1] == 10 { bytes.len() - 1 } else { bytes.len() };
    let winds = crate::text::slice_of(bytes, 0, n);
    let ghost ws = winds@;
    assert(ws =~= jets(input.spec_bytes()));
    let ghost ab = {
        let (a0, b0) = choose|a: int, b: int| b <= 1_000_000 && #[trigger] is_repeat(ws, a, b);
        (a0, b0)
    };
    let ghost bound = ab.1;
    let mut wind: usize = 0;
    let mut board = Board { data: Vec::new() };
    let pieces = base_pieces();
    let mut seen: Vec<(usize, usize, Vec<u8>, usize, usize)> = Vec::new();
    let mut num_pieces: usize = 0;
    let mut found: Option<(usize, usize)> = None;
    while found.is_none()
        invariant
            ws == winds@,
            valid_winds(ws),
            bound <= 1_000_000,
            is_repeat(ws, ab.0, bound),
            num_pieces <= bound,
            pieces@.len() == 5,
            forall|i: int| 0 <= i < 5 ==> (#[trigger] pieces@[i]).data@ == base_piece(i),
            (board.data@, wind as nat) == after(ws, num_pieces as nat),
            found is None ==> no_repeat_upto(ws, num_pieces as int),
            found matches Some((a, ha)) ==> is_repeat(ws, a as int, num_pieces as int) && no_repeat_upto(
                ws,
                num_pieces - 1,
            ) && ha == height_after(ws, a as nat),
            forall|k: int|
                0 <= k < seen@.len() ==> {
                    &&& 1 <= (#[trigger] seen@[k]).3 <= num_pieces
                    &&& height_after(ws, seen@[k].3 as nat) >= 30
                    &&& key(ws, seen@[k].3 as nat) == (seen@[k].0 as int, seen@[k].1 as int, seen@[k].2@)
                    &&& seen@[k].4 == height_after(ws, seen@[k].3 as nat)
                },
            found is None ==> forall|m: int|
                1 <= m <= num_pieces && #[trigger] height_after(ws, m as nat) >= 30 ==> exists|k: int|
                    0 <= k < seen@.len() && (#[trigger] seen@[k]).3 == m,
        decreases bound - num_pieces,
    {
        proof {
            lemma_after_bounds(ws, num_pieces as nat);
            if num_pieces == bound {
                assert(!is_repeat(ws, ab.0, bound));
            }
        }
        wind = board.drop(&pieces[num_pieces % 5], winds.as_slice(), wind);
        num_pieces += 1;
        let h = board.height();
        let ghost now = num_pieces as nat;
        if h >= 30 {
            let rows = crate::text::slice_of(board.data.as_slice(), h - 30, h);
            let p = num_pieces % 5;
            assert(key(ws, now) == (p as int, wind as int, rows@));
            let mut k: usize = 0;
            while k < seen.len() && found.is_none()
                invariant
                    k <= seen@.len(),
                    found is None ==> forall|j: int|
                        0 <= j < k ==> !((#[trigger] seen@[j]).0 == p && seen@[j].1 == wind && seen@[j].2@ == rows@),
                    found matches Some((a, ha)) ==> exists|j: int|
                        0 <= j < seen@.len() && (#[trigger] seen@[j]).3 == a && seen@[j].4 == ha && seen@[j].0 == p
                            && seen@[j].1 == wind && seen@[j].2@ == rows@,
                decreases seen@.len() - k + if found is None { 1int } else { 0int },
            {
                let e = &seen[k];
                if e.0 == p && e.1 == wind && same_rows(&e.2, &rows) {
                    found = Some((e.3, e.4));
                } else {
                    k += 1;
                }
            }
            proof {
                if let Some((a, ha)) = found {
                    let j = choose|j: int|
                        0 <= j < seen@.len() && (#[trigger] seen@[j]).3 == a && seen@[j].4 == ha && seen@[j].0 == p
                            && seen@[j].1 == wind && seen@[j].2@ == rows@;
                    assert(key(ws, a as nat) == key(ws, now));
                    assert(is_repeat(ws, a as int, now as int));
                } else {
                    assert forall|x: int, y: int| #![trigger is_repeat(ws, x, y)] y <= now implies !is_repeat(ws, x, y) by {
                        if y == now && is_repeat(ws, x, y) {
                            let j = choose|j: int| 0 <= j < seen@.len() && (#[trigger] seen@[j]).3 == x;
                            assert(key(ws, x as nat) == (seen@[j].0 as int, seen@[j].1 as int, seen@[j].2@));
                            assert(!(seen@[j].0 == p && seen@[j].1 == wind && seen@[j].2@ == rows@));
                        }
                    }
                }
            }
            if found.is_none() {
                let ghost old_seen = seen@;
                seen.push((p, wind, rows, num_pieces, h));
                assert forall|m: int|
                    1 <= m <= num_pieces && #[trigger] height_after(ws, m as nat) >= 30 implies exists|k: int|
                        0 <= k < seen@.len() && (#[trigger] seen@[k]).3 == m by {
                    if m < num_pieces {
                        let k = choose|k: int| 0 <= k < old_seen.len() && (#[trigger] old_seen[k]).3 == m;
                        assert(seen@[k] == old_seen[k]);
                    } else {
                        assert(seen@[old_seen.len() as int].3 == m);
                    }
                }
            }
        } else {
            assert forall|x: int, y: int| #![trigger is_repeat(ws, x, y)] y <= now implies !is_repeat(ws, x, y) by {
                if y == now {
                    assert(height_after(ws, now) < 30);
                }
            }
        }
    }
    let (a, ha) = match found {
        Some(f) => f,
        None => (0, 0),
    };
    let b = num_pieces;
    let hb = board.height();
    proof {
        lemma_first_repeat(ws, a as int, b as int);
        lemma_height_mono(ws, a as nat, b as nat);
        lemma_height_step(ws, a as nat, b as nat);
    }
    let cycle = (b - a) as u64;
    let cycles = (TRILLION - a as u64) / cycle;
    let rest = (TRILLION - a as u64) % cycle;
    let per_cycle = (hb - ha) as u64;
    proof {
        let t = TRILLION - a;
        assert(cycles * per_cycle <= 4 * t) by (nonlinear_arith)
            requires
                cycles == t / (cycle as int),
                cycle >= 1,
                0 <= per_cycle <= 4 * cycle,
                t >= 0,
        ;
        assert(rest < cycle);
    }
    let before = board.height();
    let _ = drop_more(&mut board, wind, &winds, &pieces, b, rest as usize);
    proof {
        lemma_height_mono(ws, b as nat, (b + rest) as nat);
        lemma_height_step(ws, b as nat, (b + rest) as nat);
    }
    let extra = (board.height() - before) as u64;
    proof {
        lemma_after_bounds(ws, a as nat);
        assert(ha <= 4 * a);
        assert(extra <= 4 * rest);
        assert(cycles * per_cycle <= 4 * (TRILLION - a));
    }
    ha as u64 + cycles * per_cycle + extra
}

} // verus!
