//! Supply stacks: crates moved between stacks by a crane, one at a time or several at once.
use vstd::prelude::*;
use crate::text::{
    after_prefix, decimal, is_decimal, parse_u32, slice_of, split_at_space, split_space, str_lines, string_of,
    strip_prefix, text_lines, views,
};

verus! {

/// The stacks of crates, each listed from the bottom up.
pub struct State {
    pub stacks: Vec<Vec<u8>>,
}

/// One step of the procedure: move `count` crates from stack `from` to stack `to`
/// (stacks numbered from 0).
#[derive(Clone, Copy, Debug, PartialEq, Eq)]
pub struct Step {
    pub count: usize,
    pub from: usize,
    pub to: usize,
}

pub open spec fn stack_views(v: Seq<Vec<u8>>) -> Seq<Seq<u8>> {
    v.map_values(|s: Vec<u8>| s@)
}

/// The step can be carried out on `stacks`.
pub open spec fn step_ok(stacks: Seq<Seq<u8>>, step: Step) -> bool {
    step.from < stacks.len() && step.to < stacks.len() && step.count <= stacks[step.from as int].len()
}

/// The stacks after `step`: the top `count` crates of `from` are lifted and put on `to`,
/// in reverse order when they are moved one at a time (`reverse`).
pub open spec fn applied(stacks: Seq<Seq<u8>>, step: Step, reverse: bool) -> Seq<Seq<u8>> {
    let s = stacks[step.from as int];
    let cut = s.len() - step.count;
    let lifted = s.subrange(cut, s.len() as int);
    let moved = if reverse { lifted.reverse() } else { lifted };
    let after = stacks.update(step.from as int, s.subrange(0, cut));
    after.update(step.to as int, after[step.to as int] + moved)
}

/// The stacks after `steps`, or `None` when a step cannot be carried out.
pub open spec fn run(stacks: Seq<Seq<u8>>, steps: Seq<Step>, reverse: bool) -> Option<Seq<Seq<u8>>>
    decreases steps.len(),
{
    if steps.len() == 0 {
        Some(stacks)
    } else {
        match run(stacks, steps.drop_last(), reverse) {
            Some(st) => if step_ok(st, steps.last()) {
                Some(applied(st, steps.last(), reverse))
            } else {
                None
            },
            None => None,
        }
    }
}

/// No stack is empty.
pub open spec fn all_nonempty(stacks: Seq<Seq<u8>>) -> bool {
    forall|i: int| 0 <= i < stacks.len() ==> (#[trigger] stacks[i]).len() > 0
}

/// The crate on top of each stack, as characters.
pub open spec fn tops(stacks: Seq<Seq<u8>>) -> Seq<char> {
    Seq::new(stacks.len(), |i: int| stacks[i].last() as char)
}

impl State {
    /// Lifts the top `count` crates off stack `stack` and returns them, bottom first.
    pub fn remove_crates(&mut self, stack: usize, count: usize) -> (r: Vec<u8>)
        requires
            stack < old(self).stacks@.len(),
            count <= old(self).stacks@[stack as int]@.len(),
        ensures
            ({
                let s = stack_views(old(self).stacks@)[stack as int];
                &&& r@ == s.subrange(s.len() - count, s.len() as int)
                &&& final(self).stacks@.len() == old(self).stacks@.len()
                &&& stack_views(final(self).stacks@) == stack_views(old(self).stacks@).update(
                    stack as int,
                    s.subrange(0, s.len() - count),
                )
            }),
    {
        let n = self.stacks[stack].len();
        let kept = slice_of(self.stacks[stack].as_slice(), 0, n - count);
        let lifted = slice_of(self.stacks[stack].as_slice(), n - count, n);
        let ghost before = stack_views(self.stacks@);
        self.stacks.set(stack, kept);
        assert(stack_views(self.stacks@) =~= before.update(stack as int, before[stack as int].subrange(0, n - count)));
        lifted
    }

    /// Puts `crates` on top of stack `stack`, first one lowest.
    pub fn add_crates(&mut self, stack: usize, crates: Vec<u8>)
        requires
            stack < old(self).stacks@.len(),
        ensures
            stack_views(final(self).stacks@) == stack_views(old(self).stacks@).update(
                stack as int,
                stack_views(old(self).stacks@)[stack as int] + crates@,
            ),
    {
        let n = self.stacks[stack].len();
        let mut s = slice_of(self.stacks[stack].as_slice(), 0, n);
        let mut i: usize = 0;
        while i < crates.len()
            invariant
                i <= crates@.len(),
                s@ == self.stacks@[stack as int]@ + crates@.subrange(0, i as int),
            decreases crates@.len() - i,
        {
            s.push(crates[i]);
            i += 1;
        }
        let ghost before = stack_views(self.stacks@);
        self.stacks.set(stack, s);
        assert(crates@.subrange(0, crates@.len() as int) =~= crates@);
        assert(stack_views(self.stacks@) =~= before.update(stack as int, before[stack as int] + crates@));
    }

    /// Carries out `step`, reversing the lifted crates when they move one at a time.
    pub fn apply(&mut self, step: &Step, reverse: bool)
        requires
            step_ok(stack_views(old(self).stacks@), *step),
        ensures
            stack_views(final(self).stacks@) == applied(stack_views(old(self).stacks@), *step, reverse),
    {
        let ghost st = stack_views(self.stacks@);
        let mut crates = self.remove_crates(step.from, step.count);
        if reverse {
            crates = reversed(&crates);
        }
        self.add_crates(step.to, crates);
    }

    /// The top crate of every stack, which must not be empty.
    pub fn top_crates(&self) -> (r: String)
        requires
            forall|i: int| 0 <= i < self.stacks@.len() ==> (#[trigger] self.stacks@[i])@.len() > 0,
        ensures
            r@ == tops(stack_views(self.stacks@)),
    {
        let mut out: Vec<char> = Vec::new();
        let mut i: usize = 0;
        while i < self.stacks.len()
            invariant
                i <= self.stacks@.len(),
                forall|j: int| 0 <= j < self.stacks@.len() ==> (#[trigger] self.stacks@[j])@.len() > 0,
                out@ =~= tops(stack_views(self.stacks@)).subrange(0, i as int),
            decreases self.stacks@.len() - i,
        {
            let s = &self.stacks[i];
            out.push(s[s.len() - 1] as char);
            i += 1;
        }
        string_of(out)
    }
}

fn reversed(v: &Vec<u8>) -> (r: Vec<u8>)
    ensures
        r@ == v@.reverse(),
{
    let mut r: Vec<u8> = Vec::new();
    let mut i: usize = v.len();
    while i > 0
        invariant
            i <= v@.len(),
            r@ =~= v@.subrange(i as int, v@.len() as int).reverse(),
        decreases i,
    {
        i -= 1;
        r.push(v[i]);
    }
    assert(v@.subrange(0, v@.len() as int) =~= v@);
    r
}

/// Runs `steps` on a copy of `input` and returns the top crates.
fn rearrange(input: &State, steps: &Vec<Step>, reverse: bool) -> (r: String)
    requires
        run(stack_views(input.stacks@), steps@, reverse) matches Some(fin) && all_nonempty(fin),
    ensures
        r@ == tops(run(stack_views(input.stacks@), steps@, reverse)->Some_0),
{
    let mut stacks: Vec<Vec<u8>> = Vec::new();
    let mut k: usize = 0;
    while k < input.stacks.len()
        invariant
            k <= input.stacks@.len(),
            stack_views(stacks@) =~= stack_views(input.stacks@).subrange(0, k as int),
        decreases input.stacks@.len() - k,
    {
        let s = &input.stacks[k];
        let ghost before = stacks@;
        let copy = slice_of(s.as_slice(), 0, s.len());
        assert(copy@ =~= s@);
        stacks.push(copy);
        assert(stack_views(stacks@) =~= stack_views(before).push(input.stacks@[k as int]@));
        k += 1;
    }
    let mut state = State { stacks };
    let ghost start = stack_views(input.stacks@);
    let mut i: usize = 0;
    while i < steps.len()
        invariant
            i <= steps@.len(),
            run(start, steps@, reverse) is Some,
            run(start, steps@.subrange(0, i as int), reverse) == Some(stack_views(state.stacks@)),
        decreases steps@.len() - i,
    {
        proof {
            assert(steps@.subrange(0, i + 1).drop_last() =~= steps@.subrange(0, i as int));
            lemma_run_prefix(start, steps@, reverse, i + 1);
        }
        state.apply(&steps[i], reverse);
        i += 1;
    }
    assert(steps@.subrange(0, steps@.len() as int) =~= steps@);
    let ghost fin = stack_views(state.stacks@);
    assert(run(start, steps@, reverse) == Some(fin));
    assert forall|j: int| 0 <= j < state.stacks@.len() implies (#[trigger] state.stacks@[j])@.len() > 0 by {
        assert(fin.len() == state.stacks@.len());
        assert(fin[j] == state.stacks@[j]@);
        assert(all_nonempty(fin));
        assert(fin[j].len() > 0);
    }
    let r = state.top_crates();
    r
}

/// A prefix of a run that succeeds succeeds too.
proof fn lemma_run_prefix(stacks: Seq<Seq<u8>>, steps: Seq<Step>, reverse: bool, i: int)
    requires
        0 <= i <= steps.len(),
        run(stacks, steps, reverse) is Some,
    ensures
        run(stacks, steps.subrange(0, i), reverse) is Some,
    decreases steps.len() - i,
{
    if i < steps.len() {
        lemma_run_prefix(stacks, steps, reverse, i + 1);
        assert(steps.subrange(0, i + 1).drop_last() =~= steps.subrange(0, i));
    } else {
        assert(steps.subrange(0, i) =~= steps);
    }
}

/// The top crates after moving crates one at a time.
pub fn part1(input: &(State, Vec<Step>)) -> (r: String)
    requires
        run(stack_views(input.0.stacks@), input.1@, true) matches Some(fin) && all_nonempty(fin),
    ensures
        r@ == tops(run(stack_views(input.0.stacks@), input.1@, true)->Some_0),
{
    rearrange(&input.0, &input.1, true)
}

/// The top crates after moving several crates at once.
pub fn part2(input: &(State, Vec<Step>)) -> (r: String)
    requires
        run(stack_views(input.0.stacks@), input.1@, false) matches Some(fin) && all_nonempty(fin),
    ensures
        r@ == tops(run(stack_views(input.0.stacks@), input.1@, false)->Some_0),
{
    rearrange(&input.0, &input.1, false)
}


pub open spec fn is_upper(b: u8) -> bool {
    65 <= b <= 90
}

/// Puts crate `c` under stack `j`, adding empty stacks up to `j` where there are fewer.
pub open spec fn push_under(st: Seq<Seq<u8>>, j: int, c: u8) -> Seq<Seq<u8>> {
    let g = if st.len() <= j { st + Seq::new((j + 1 - st.len()) as nat, |k: int| Seq::<u8>::empty()) } else { st };
    g.update(j, seq![c] + g[j])
}

/// The stacks after the crates of `line[0 .. i]`, left to right: the letter at position
/// `p` goes under stack `(p - 1) / 4`. `None` for a letter at position 0.
pub open spec fn add_row(st: Seq<Seq<u8>>, line: Seq<u8>, i: int) -> Option<Seq<Seq<u8>>>
    decreases i,
{
    if i <= 0 {
        Some(st)
    } else {
        match add_row(st, line, i - 1) {
            Some(s) => if is_upper(line[i - 1]) {
                if i - 1 == 0 {
                    None
                } else {
                    Some(push_under(s, (i - 2) / 4, line[i - 1]))
                }
            } else {
                Some(s)
            },
            None => None,
        }
    }
}

/// The stacks drawn by the lines `ls`, top row first.
pub open spec fn drawing(ls: Seq<Seq<u8>>) -> Option<Seq<Seq<u8>>>
    decreases ls.len(),
{
    if ls.len() == 0 {
        Some(Seq::empty())
    } else {
        match drawing(ls.drop_last()) {
            Some(st) => add_row(st, ls.last(), ls.last().len() as int),
            None => None,
        }
    }
}

/// The value of decimal digits that fit in a `u32`.
pub open spec fn number(s: Seq<u8>) -> Option<int> {
    if is_decimal(s) && decimal(s) <= u32::MAX { Some(decimal(s)) } else { None }
}

pub open spec fn word_move() -> Seq<u8> {
    seq![109u8, 111, 118, 101, 32]
}

pub open spec fn word_from() -> Seq<u8> {
    seq![102u8, 114, 111, 109, 32]
}

pub open spec fn word_to() -> Seq<u8> {
    seq![116u8, 111, 32]
}

/// The step `move a from b to c` (stacks numbered from 1 in the text).
pub open spec fn step_text(line: Seq<u8>) -> Option<Step> {
    match after_prefix(line, word_move()) {
        Some(r1) => match split_space(r1) {
            Some((a, r2)) => match after_prefix(r2, word_from()) {
                Some(r3) => match split_space(r3) {
                    Some((b, r4)) => match after_prefix(r4, word_to()) {
                        Some(c) => match (number(a), number(b), number(c)) {
                            (Some(x), Some(y), Some(z)) => if y >= 1 && z >= 1 {
                                Some(Step { count: x as usize, from: (y - 1) as usize, to: (z - 1) as usize })
                            } else {
                                None
                            },
                            _ => None,
                        },
                        None => None,
                    },
                    None => None,
                },
                None => None,
            },
            None => None,
        },
        None => None,
    }
}

/// The steps of the lines `ls` that start with `move`; `None` when one of them is not a step.
pub open spec fn steps_text(ls: Seq<Seq<u8>>) -> Option<Seq<Step>>
    decreases ls.len(),
{
    if ls.len() == 0 {
        Some(Seq::empty())
    } else {
        match steps_text(ls.drop_last()) {
            Some(ps) => if after_prefix(ls.last(), seq![109u8, 111, 118, 101]) is Some {
                match step_text(ls.last()) {
                    Some(p) => Some(ps.push(p)),
                    None => None,
                }
            } else {
                Some(ps)
            },
            None => None,
        }
    }
}

/// The index of the first line holding a `1` (the stack labels), or the number of lines.
pub open spec fn label_line(ls: Seq<Seq<u8>>) -> int {
    if exists|i: int| 0 <= i < ls.len() && (#[trigger] ls[i]).contains(49u8) {
        choose|i: int|
            0 <= i < ls.len() && (#[trigger] ls[i]).contains(49u8) && forall|j: int| 0 <= j < i ==> !ls[j].contains(49u8)
    } else {
        ls.len() as int
    }
}

/// The drawing above the labels and the steps below them.
pub open spec fn puzzle_text(ls: Seq<Seq<u8>>) -> Option<(Seq<Seq<u8>>, Seq<Step>)> {
    let k = label_line(ls);
    let rest = if k < ls.len() { ls.subrange(k + 1, ls.len() as int) } else { Seq::empty() };
    match (drawing(ls.subrange(0, k)), steps_text(rest)) {
        (Some(st), Some(steps)) => Some((st, steps)),
        _ => None,
    }
}

fn number_of(s: &Vec<u8>) -> (r: Option<usize>)
    ensures
        match r {
            Some(v) => number(s@) == Some(v as int),
            None => number(s@) is None,
        },
{
    proof {
        if is_decimal(s@) {
            crate::text::lemma_decimal_nonneg(s@);
        }
    }
    match parse_u32(s.as_slice()) {
        Some(v) => Some(v as usize),
        None => None,
    }
}

fn parse_step(line: &Vec<u8>) -> (r: Option<Step>)
    ensures
        r == step_text(line@),
{
    let w_move: Vec<u8> = vec![109, 111, 118, 101, 32];
    let w_from: Vec<u8> = vec![102, 114, 111, 109, 32];
    let w_to: Vec<u8> = vec![116, 111, 32];
    assert(w_move@ =~= word_move());
    assert(w_from@ =~= word_from());
    assert(w_to@ =~= word_to());
    let r1 = match strip_prefix(line.as_slice(), w_move.as_slice()) {
        Some(v) => v,
        None => {
            return None;
        },
    };
    let (a, r2) = match split_at_space(r1.as_slice()) {
        Some(p) => p,
        None => {
            return None;
        },
    };
    let r3 = match strip_prefix(r2.as_slice(), w_from.as_slice()) {
        Some(v) => v,
        None => {
            return None;
        },
    };
    let (b, r4) = match split_at_space(r3.as_slice()) {
        Some(p) => p,
        None => {
            return None;
        },
    };
    let c = match strip_prefix(r4.as_slice(), w_to.as_slice()) {
        Some(v) => v,
        None => {
            return None;
        },
    };
    match (number_of(&a), number_of(&b), number_of(&c)) {
        (Some(x), Some(y), Some(z)) => {
            if y >= 1 && z >= 1 {
                Some(Step { count: x, from: y - 1, to: z - 1 })
            } else {
                None
            }
        },
        _ => None,
    }
}

fn contains_one(line: &Vec<u8>) -> (r: bool)
    ensures
        r == line@.contains(49u8),
{
    let mut i: usize = 0;
    while i < line.len()
        invariant
            i <= line@.len(),
            forall|j: int| 0 <= j < i ==> line@[j] != 49u8,
        decreases line@.len() - i,
    {
        if line[i] == 49 {
            assert(line@[i as int] == 49u8);
            return true;
        }
        i += 1;
    }
    false
}

/// Puts crate `c` under stack `j` of `stacks`, adding empty stacks where needed.
fn push_crate_under(stacks: &mut Vec<Vec<u8>>, j: usize, c: u8)
    ensures
        stack_views(final(stacks)@) == push_under(stack_views(old(stacks)@), j as int, c),
{
    let ghost st = stack_views(stacks@);
    while stacks.len() <= j
        invariant
            st.len() <= stacks@.len(),
            stack_views(stacks@) =~= st + Seq::new((stacks@.len() - st.len()) as nat, |k: int| Seq::<u8>::empty()),
            stacks@.len() <= j + 1 || stacks@.len() == st.len(),
        decreases j + 1 - stacks@.len(),
    {
        let ghost before = stack_views(stacks@);
        stacks.push(Vec::new());
        assert(stack_views(stacks@) =~= before.push(Seq::<u8>::empty()));
    }
    let old_stack = &stacks[j];
    let mut s: Vec<u8> = Vec::new();
    s.push(c);
    let mut i: usize = 0;
    while i < old_stack.len()
        invariant
            i <= old_stack@.len(),
            s@ == seq![c] + old_stack@.subrange(0, i as int),
        decreases old_stack@.len() - i,
    {
        s.push(old_stack[i]);
        i += 1;
        assert(s@ =~= seq![c] + old_stack@.subrange(0, i as int));
    }
    assert(old_stack@.subrange(0, old_stack@.len() as int) =~= old_stack@);
    let ghost grown = stack_views(stacks@);
    stacks.set(j, s);
    assert(stack_views(stacks@) =~= grown.update(j as int, seq![c] + grown[j as int]));
}

/// Adds the crates of one drawing line, left to right; `false` (stacks unspecified) when a
/// letter stands at position 0.
fn add_line(stacks: &mut Vec<Vec<u8>>, line: &Vec<u8>) -> (r: bool)
    ensures
        r ==> add_row(stack_views(old(stacks)@), line@, line@.len() as int) == Some(stack_views(final(stacks)@)),
        !r ==> add_row(stack_views(old(stacks)@), line@, line@.len() as int) is None,
{
    let ghost start = stack_views(stacks@);
    let mut p: usize = 0;
    while p < line.len()
        invariant
            p <= line@.len(),
            start == stack_views(old(stacks)@),
            add_row(start, line@, p as int) == Some(stack_views(stacks@)),
        decreases line@.len() - p,
    {
        let b = line[p];
        if 65 <= b && b <= 90 {
            if p == 0 {
                proof {
                    assert(add_row(start, line@, 0) == Some(start));
                    assert(is_upper(line@[0]));
                    assert(add_row(start, line@, 1) is None);
                    lemma_row_none(start, line@, 1);
                }
                return false;
            }
            push_crate_under(stacks, (p - 1) / 4, b);
        }
        p += 1;
    }
    true
}

/// The stacks drawn above the stack labels, and the steps below them; `None` when a
/// crate letter stands at the start of a line or a `move` line is not a step.
pub fn generator(input: &str) -> (r: Option<(State, Vec<Step>)>)
    ensures
        match r {
            Some((st, steps)) => puzzle_text(text_lines(input)) == Some((stack_views(st.stacks@), steps@)),
            None => puzzle_text(text_lines(input)) is None,
        },
{
    let rows = str_lines(input);
    let ghost ls = views(rows@);
    let mut stacks: Vec<Vec<u8>> = Vec::new();
    let mut i: usize = 0;
    while i < rows.len() && !contains_one(&rows[i])
        invariant
            ls == views(rows@),
            ls == text_lines(input),
            ls.len() == rows@.len(),
            i <= ls.len(),
            forall|j: int| 0 <= j < i ==> !(#[trigger] ls[j]).contains(49u8),
            drawing(ls.subrange(0, i as int)) == Some(stack_views(stacks@)),
        decreases ls.len() - i,
    {
        let line = &rows[i];
        assert(line@ == ls[i as int]);
        assert(ls.subrange(0, i + 1).drop_last() =~= ls.subrange(0, i as int));
        assert(!ls[i as int].contains(49u8));
        let ghost start = stack_views(stacks@);
        if !add_line(&mut stacks, line) {
            proof {
                assert(ls.subrange(0, i + 1).last() == ls[i as int]);
                assert(drawing(ls.subrange(0, i + 1)) is None);
                lemma_drawing_none(ls, i as int + 1);
                lemma_label_after(ls, i as int);
            }
            return None;
        }
        i += 1;
    }
    let ghost k = i as int;
    proof {
        if i < rows.len() {
            assert(ls[k].contains(49u8));
            let c = choose|c: int| 0 <= c < ls.len() && (#[trigger] ls[c]).contains(49u8) && forall|j: int| 0 <= j < c ==> !ls[j].contains(49u8);
            if c < k {
                assert(!ls[c].contains(49u8));
            } else if c > k {
                assert(!ls[k].contains(49u8));
            }
        }
        assert(label_line(ls) == k);
    }
    let mut steps: Vec<Step> = Vec::new();
    let mut j: usize = if i < rows.len() { i + 1 } else { i };
    let ghost from = j as int;
    let w_move: Vec<u8> = vec![109, 111, 118, 101];
    assert(w_move@ =~= seq![109u8, 111, 118, 101]);
    while j < rows.len()
        invariant
            ls == views(rows@),
            ls == text_lines(input),
            0 <= from <= j <= ls.len(),
            ls.len() == rows@.len(),
            0 <= k <= ls.len(),
            k == label_line(ls),
            from == if k < ls.len() { k + 1 } else { k },
            drawing(ls.subrange(0, k)) == Some(stack_views(stacks@)),
            w_move@ == seq![109u8, 111, 118, 101],
            steps_text(ls.subrange(from, j as int)) == Some(steps@),
        decreases ls.len() - j,
    {
        let line = &rows[j];
        assert(line@ == ls[j as int]);
        assert(ls.subrange(from, j + 1).drop_last() =~= ls.subrange(from, j as int));
        if strip_prefix(line.as_slice(), w_move.as_slice()).is_some() {
            match parse_step(line) {
                Some(st) => steps.push(st),
                None => {
                    proof {
                        lemma_steps_none(ls.subrange(from, ls.len() as int), j - from + 1);
                        assert(ls.subrange(from, ls.len() as int).subrange(0, j - from + 1) =~= ls.subrange(from, j + 1));
                        assert(ls.subrange(from, ls.len() as int) =~= if k < ls.len() { ls.subrange(k + 1, ls.len() as int) } else { Seq::empty() });
                    }
                    return None;
                },
            }
        }
        j += 1;
    }
    proof {
        assert(ls.subrange(from, ls.len() as int) =~= if k < ls.len() { ls.subrange(k + 1, ls.len() as int) } else { Seq::empty() });
    }
    Some((State { stacks }, steps))
}

/// With no `1` in lines `0 ..= i`, the label line comes after `i`.
proof fn lemma_label_after(ls: Seq<Seq<u8>>, i: int)
    requires
        0 <= i < ls.len(),
        forall|j: int| 0 <= j <= i ==> !(#[trigger] ls[j]).contains(49u8),
    ensures
        i < label_line(ls) <= ls.len(),
{
    if exists|c: int| 0 <= c < ls.len() && (#[trigger] ls[c]).contains(49u8) {
        let c = choose|c: int|
            0 <= c < ls.len() && (#[trigger] ls[c]).contains(49u8) && forall|j: int| 0 <= j < c ==> !ls[j].contains(49u8);
        assert(exists|c: int|
            0 <= c < ls.len() && (#[trigger] ls[c]).contains(49u8) && forall|j: int| 0 <= j < c ==> !ls[j].contains(49u8)) by {
            lemma_first_one(ls);
        }
        assert(label_line(ls) == c);
        if c <= i {
            assert(!ls[c].contains(49u8));
        }
    }
}

/// When some line holds a `1`, a first such line exists.
proof fn lemma_first_one(ls: Seq<Seq<u8>>)
    requires
        exists|c: int| 0 <= c < ls.len() && (#[trigger] ls[c]).contains(49u8),
    ensures
        exists|c: int|
            0 <= c < ls.len() && (#[trigger] ls[c]).contains(49u8) && forall|j: int| 0 <= j < c ==> !ls[j].contains(49u8),
{
    let c0 = choose|c: int| 0 <= c < ls.len() && (#[trigger] ls[c]).contains(49u8);
    lemma_first_one_below(ls, c0);
}

proof fn lemma_first_one_below(ls: Seq<Seq<u8>>, c: int)
    requires
        0 <= c < ls.len(),
        ls[c].contains(49u8),
    ensures
        exists|d: int|
            0 <= d < ls.len() && (#[trigger] ls[d]).contains(49u8) && forall|j: int| 0 <= j < d ==> !ls[j].contains(49u8),
    decreases c,
{
    if exists|j: int| 0 <= j < c && (#[trigger] ls[j]).contains(49u8) {
        let j = choose|j: int| 0 <= j < c && (#[trigger] ls[j]).contains(49u8);
        lemma_first_one_below(ls, j);
    } else {
        assert(forall|j: int| 0 <= j < c ==> !(#[trigger] ls[j]).contains(49u8));
    }
}

proof fn lemma_row_none(st: Seq<Seq<u8>>, line: Seq<u8>, i: int)
    requires
        1 <= i <= line.len(),
        add_row(st, line, i) is None,
    ensures
        add_row(st, line, line.len() as int) is None,
    decreases line.len() - i,
{
    if i < line.len() {
        lemma_row_none(st, line, i + 1);
    }
}

proof fn lemma_drawing_none(ls: Seq<Seq<u8>>, i: int)
    requires
        1 <= i <= ls.len(),
        drawing(ls.subrange(0, i)) is None,
    ensures
        forall|k: int| i <= k <= ls.len() ==> #[trigger] drawing(ls.subrange(0, k)) is None,
    decreases ls.len() - i,
{
    if i < ls.len() {
        assert(ls.subrange(0, i + 1).drop_last() =~= ls.subrange(0, i));
        lemma_drawing_none(ls, i + 1);
    }
}

proof fn lemma_steps_none(ls: Seq<Seq<u8>>, i: int)
    requires
        0 <= i <= ls.len(),
        steps_text(ls.subrange(0, i)) is None,
    ensures
        steps_text(ls) is None,
    decreases ls.len() - i,
{
    if i < ls.len() {
        assert(ls.subrange(0, i + 1).drop_last() =~= ls.subrange(0, i));
        lemma_steps_none(ls, i + 1);
    } else {
        assert(ls.subrange(0, i) =~= ls);
    }
}

} // verus!
