//! Section assignments: pairs of closed ranges, and how often one holds or meets the other.
use vstd::prelude::*;
use crate::text::{decimal, find_byte, first_index, is_decimal, parse_u32, slice_of, str_lines, text_lines, views};

verus! {

/// A closed range of section numbers: `Range { start: 2, end: 4 }` is 2, 3 and 4.
#[derive(Clone, Copy, Debug, PartialEq, Eq)]
pub struct Range {
    pub start: usize,
    pub end: usize,
}

/// The value of `s` when it is a decimal number that fits in a `u32`.
pub open spec fn number(s: Seq<u8>) -> Option<u32> {
    if is_decimal(s) && decimal(s) <= u32::MAX {
        Some(decimal(s) as u32)
    } else {
        None
    }
}

/// The range written `a-b`, split at the first `-`.
pub open spec fn range_text(s: Seq<u8>) -> Option<Range> {
    match first_index(s, 45) {
        Some(i) => match (number(s.subrange(0, i)), number(s.subrange(i + 1, s.len() as int))) {
            (Some(a), Some(b)) => Some(Range { start: a as usize, end: b as usize }),
            _ => None,
        },
        None => None,
    }
}

/// The pair of ranges written `a-b,c-d`, split at the first `,`.
pub open spec fn pair_text(s: Seq<u8>) -> Option<(Range, Range)> {
    match first_index(s, 44) {
        Some(i) => match (range_text(s.subrange(0, i)), range_text(s.subrange(i + 1, s.len() as int))) {
            (Some(a), Some(b)) => Some((a, b)),
            _ => None,
        },
        None => None,
    }
}

/// The pairs of every line of `lines`, or `None` when a line is not a pair.
pub open spec fn pairs_text(lines: Seq<Seq<u8>>) -> Option<Seq<(Range, Range)>>
    decreases lines.len(),
{
    if lines.len() == 0 {
        Some(Seq::empty())
    } else {
        match (pairs_text(lines.drop_last()), pair_text(lines.last())) {
            (Some(ps), Some(p)) => Some(ps.push(p)),
            _ => None,
        }
    }
}

/// How many pairs have one range within the other (`overlap == false`), or have the two
/// ranges meet (`overlap == true`).
pub open spec fn count_pairs(pairs: Seq<(Range, Range)>, overlap: bool) -> nat
    decreases pairs.len(),
{
    if pairs.len() == 0 {
        0
    } else {
        let (a, b) = pairs.last();
        let hit = if overlap { a.overlaps_spec(b) } else { a.contains_spec(b) || b.contains_spec(a) };
        count_pairs(pairs.drop_last(), overlap) + if hit { 1nat } else { 0nat }
    }
}

impl Range {
    pub open spec fn contains_spec(&self, other: Range) -> bool {
        self.start <= other.start && self.end >= other.end
    }

    pub open spec fn overlaps_spec(&self, other: Range) -> bool {
        (if self.start >= other.start { self.start } else { other.start }) <= (if self.end <= other.end {
            self.end
        } else {
            other.end
        })
    }

    /// Reads a range written `a-b`; `None` when `s` is not of that form.
    pub fn from_str(s: &[u8]) -> (r: Option<Range>)
        ensures
            r == range_text(s@),
    {
        let n = s.len();
        match find_byte(s, 45) {
            Some(i) => {
                assert(i < n);
                let left = slice_of(s, 0, i);
                let right = slice_of(s, i + 1, n);
                let a = parse_u32(left.as_slice());
                let b = parse_u32(right.as_slice());
                assert(a is Some <==> number(s@.subrange(0, i as int)) is Some);
                assert(b is Some <==> number(s@.subrange(i + 1, n as int)) is Some);
                match (a, b) {
                    (Some(a), Some(b)) => Some(Range { start: a as usize, end: b as usize }),
                    _ => None,
                }
            },
            None => None,
        }
    }

    /// Whether this range holds every section of `other`.
    pub fn contains(&self, other: &Range) -> (r: bool)
        ensures
            r == self.contains_spec(*other),
    {
        (self.start <= other.start) && (self.end >= other.end)
    }

    /// Whether the two ranges share a section: the larger start is at most the smaller end.
    pub fn overlaps(&self, other: &Range) -> (r: bool)
        ensures
            r == self.overlaps_spec(*other),
    {
        let lo = if self.start >= other.start { self.start } else { other.start };
        let hi = if self.end <= other.end { self.end } else { other.end };
        lo <= hi
    }
}

/// Reads a line `a-b,c-d`.
fn parse_pair(line: &Vec<u8>) -> (r: Option<(Range, Range)>)
    ensures
        r == pair_text(line@),
{
    let n = line.len();
    match find_byte(line.as_slice(), 44) {
        Some(i) => {
            assert(i < n);
            let left = slice_of(line.as_slice(), 0, i);
            let right = slice_of(line.as_slice(), i + 1, n);
            let a = Range::from_str(left.as_slice());
            let b = Range::from_str(right.as_slice());
            match (a, b) {
                (Some(a), Some(b)) => Some((a, b)),
                _ => None,
            }
        },
        None => None,
    }
}

/// The pair of ranges on each line of `input`; `None` when a line is not `a-b,c-d`.
pub fn generator(input: &str) -> (r: Option<Vec<(Range, Range)>>)
    ensures
        match r {
            Some(v) => pairs_text(text_lines(input)) == Some(v@),
            None => pairs_text(text_lines(input)) is None,
        },
{
    let rows = str_lines(input);
    let ghost all = views(rows@);
    let mut out: Vec<(Range, Range)> = Vec::new();
    let mut i: usize = 0;
    while i < rows.len()
        invariant
            all == views(rows@),
            all == text_lines(input),
            i <= all.len(),
            pairs_text(all.subrange(0, i as int)) == Some(out@),
        decreases all.len() - i,
    {
        assert(all.subrange(0, i + 1).drop_last() =~= all.subrange(0, i as int));
        assert(all[i as int] == rows@[i as int]@);
        match parse_pair(&rows[i]) {
            Some(p) => out.push(p),
            None => {
                proof {
                    lemma_pairs_none(all, i as int + 1);
                }
                return None;
            },
        }
        i += 1;
    }
    assert(all.subrange(0, all.len() as int) =~= all);
    Some(out)
}

proof fn lemma_pairs_none(all: Seq<Seq<u8>>, i: int)
    requires
        0 <= i <= all.len(),
        pairs_text(all.subrange(0, i)) is None,
    ensures
        pairs_text(all) is None,
    decreases all.len() - i,
{
    if i < all.len() {
        assert(all.subrange(0, i + 1).drop_last() =~= all.subrange(0, i));
        lemma_pairs_none(all, i + 1);
    } else {
        assert(all.subrange(0, i) =~= all);
    }
}

fn count(input: &[(Range, Range)], overlap: bool) -> (r: usize)
    ensures
        r == count_pairs(input@, overlap),
{
    let mut n: usize = 0;
    let mut i: usize = 0;
    while i < input.len()
        invariant
            i <= input@.len(),
            n == count_pairs(input@.subrange(0, i as int), overlap),
            n <= i,
        decreases input@.len() - i,
    {
        assert(input@.subrange(0, i + 1).drop_last() =~= input@.subrange(0, i as int));
        let (a, b) = input[i];
        let hit = if overlap { a.overlaps(&b) } else { a.contains(&b) || b.contains(&a) };
        if hit {
            n += 1;
        }
        i += 1;
    }
    assert(input@.subrange(0, input@.len() as int) =~= input@);
    n
}

/// How many pairs have one range wholly within the other.
pub fn part1(input: &[(Range, Range)]) -> (r: usize)
    ensures
        r == count_pairs(input@, false),
{
    count(input, false)
}

/// How many pairs have ranges that share at least one section.
pub fn part2(input: &[(Range, Range)]) -> (r: usize)
    ensures
        r == count_pairs(input@, true),
{
    count(input, true)
}

} // verus!
