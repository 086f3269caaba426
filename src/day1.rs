//! Calorie counting: the lines of the input are numbers in groups separated by empty lines.
use vstd::prelude::*;
use vstd::relations::{sorted_by, total_ordering};
use itertools::Itertools;
use crate::text::{decimal, is_decimal, parse_u32, str_lines, text_lines, views};

verus! {

/// The value of a line: its number when it is a decimal that fits in a `u32`, else 0.
pub open spec fn line_value(s: Seq<u8>) -> int {
    if is_decimal(s) && decimal(s) <= u32::MAX {
        decimal(s)
    } else {
        0
    }
}

/// The total of each group of lines, groups being separated by empty lines; a text with
/// no lines has one empty group.
pub open spec fn group_sums(lines: Seq<Seq<u8>>) -> Seq<int>
    decreases lines.len(),
{
    if lines.len() == 0 {
        seq![0]
    } else {
        let g = group_sums(lines.drop_last());
        if lines.last().len() == 0 {
            g.push(0)
        } else {
            g.update(g.len() - 1, g.last() + line_value(lines.last()))
        }
    }
}

pub open spec fn max_of(s: Seq<int>) -> int
    decreases s.len(),
{
    if s.len() <= 1 {
        if s.len() == 1 { s[0] } else { 0 }
    } else {
        let m = max_of(s.drop_last());
        if s.last() > m { s.last() } else { m }
    }
}

pub open spec fn ascending() -> spec_fn(u32, u32) -> bool {
    |a: u32, b: u32| a <= b
}

/// The sum of the three largest values of `s`, or of all of them when there are fewer.
pub open spec fn top_three(s: Seq<u32>) -> int {
    let t = s.sort_by(ascending());
    let n = t.len();
    (if n >= 1 { t[n - 1] as int } else { 0 }) + (if n >= 2 { t[n - 2] as int } else { 0 }) + (if n >= 3 {
        t[n - 3] as int
    } else {
        0
    })
}

/// The group totals of `input` as `u32` values.
pub open spec fn totals(input: &str) -> Seq<u32> {
    group_sums(text_lines(input)).map_values(|x: int| x as u32)
}

proof fn lemma_group_sums_shape(lines: Seq<Seq<u8>>)
    ensures
        group_sums(lines).len() >= 1,
        forall|k: int| 0 <= k < group_sums(lines).len() ==> #[trigger] group_sums(lines)[k] >= 0,
    decreases lines.len(),
{
    if lines.len() > 0 {
        lemma_group_sums_shape(lines.drop_last());
        if is_decimal(lines.last()) {
            crate::text::lemma_decimal_nonneg(lines.last());
        }
    }
}

/// A prefix's group totals are the first totals of the whole, its last one at most the
/// whole's total of that group.
proof fn lemma_group_sums_prefix(lines: Seq<Seq<u8>>, i: int)
    requires
        0 <= i <= lines.len(),
    ensures
        ({
            let p = group_sums(lines.subrange(0, i));
            let g = group_sums(lines);
            &&& p.len() <= g.len()
            &&& forall|k: int| 0 <= k < p.len() - 1 ==> p[k] == g[k]
            &&& p[p.len() - 1] <= g[p.len() - 1]
        }),
    decreases lines.len() - i,
{
    lemma_group_sums_shape(lines.subrange(0, i));
    if i == lines.len() {
        assert(lines.subrange(0, i) =~= lines);
    } else {
        lemma_group_sums_prefix(lines, i + 1);
        let q = lines.subrange(0, i + 1);
        assert(q.drop_last() =~= lines.subrange(0, i));
        lemma_group_sums_shape(q);
        if line_value(q.last()) < 0 {
        }
        assert(line_value(q.last()) >= 0) by {
            if is_decimal(q.last()) {
                crate::text::lemma_decimal_nonneg(q.last());
            }
        }
    }
}

/// The total of each group, in order; `None` when a total does not fit in a `u32`.
fn parse(input: &str) -> (r: Option<Vec<u32>>)
    ensures
        match r {
            Some(v) => v@.map_values(|x: u32| x as int) == group_sums(text_lines(input)),
            None => exists|k: int|
                0 <= k < group_sums(text_lines(input)).len() && #[trigger] group_sums(text_lines(input))[k]
                    > u32::MAX,
        },
{
    let rows = str_lines(input);
    let ghost all = views(rows@);
    let mut sums: Vec<u32> = Vec::new();
    sums.push(0);
    let mut i: usize = 0;
    while i < rows.len()
        invariant
            all == views(rows@),
            all == text_lines(input),
            i <= all.len(),
            sums@.len() >= 1,
            sums@.map_values(|x: u32| x as int) == group_sums(all.subrange(0, i as int)),
        decreases all.len() - i,
    {
        let ghost before = all.subrange(0, i as int);
        assert(all.subrange(0, i + 1).drop_last() =~= before);
        assert(all[i as int] == rows@[i as int]@);
        let line = &rows[i];
        if line.len() == 0 {
            sums.push(0);
            assert(sums@.map_values(|x: u32| x as int) =~= group_sums(before).push(0));
        } else {
            let sl = line.as_slice();
            assert(sl@ == all[i as int]);
            let v: u32 = match parse_u32(sl) {
                Some(v) => v,
                None => 0,
            };
            let last = sums.len() - 1;
            let cur = sums[last];
            proof {
                if is_decimal(sl@) {
                    crate::text::lemma_decimal_nonneg(sl@);
                }
            }
            assert(v as int == line_value(all[i as int]));
            assert(cur as int == sums@.map_values(|x: u32| x as int)[last as int]);
            assert(cur as int == group_sums(before).last());
            if cur > u32::MAX - v {
                proof {
                    let g = group_sums(all.subrange(0, i + 1));
                    assert(g[g.len() - 1] > u32::MAX);
                    lemma_group_sums_prefix(all, i + 1);
                    let k = g.len() - 1;
                    assert(group_sums(all)[k] > u32::MAX);
                }
                return None;
            }
            sums.set(last, cur + v);
            assert(sums@.map_values(|x: u32| x as int) =~= group_sums(before).update(
                group_sums(before).len() - 1,
                group_sums(before).last() + line_value(all[i as int]),
            ));
        }
        i += 1;
    }
    assert(all.subrange(0, all.len() as int) =~= all);
    Some(sums)
}

/// The largest group total.
pub fn part1(input: &str) -> (r: u32)
    requires
        forall|k: int|
            0 <= k < group_sums(text_lines(input)).len() ==> #[trigger] group_sums(text_lines(input))[k] <= u32::MAX,
    ensures
        r == max_of(group_sums(text_lines(input))),
{
    let sums = match parse(input) {
        Some(s) => s,
        None => {
            return 0;
        },
    };
    let ghost g = sums@.map_values(|x: u32| x as int);
    assert(sums@.len() >= 1) by {
        lemma_group_sums_shape(text_lines(input));
    }
    let mut best: u32 = sums[0];
    let mut i: usize = 1;
    assert(g.subrange(0, 1) =~= seq![g[0]]);
    while i < sums.len()
        invariant
            g == sums@.map_values(|x: u32| x as int),
            1 <= i <= sums@.len(),
            best == max_of(g.subrange(0, i as int)),
        decreases sums@.len() - i,
    {
        assert(g.subrange(0, i + 1).drop_last() =~= g.subrange(0, i as int));
        if sums[i] > best {
            best = sums[i];
        }
        i += 1;
    }
    assert(g.subrange(0, g.len() as int) =~= g);
    best
}

/// Relies on `itertools::Itertools::sorted`: the same items, in ascending order.
#[verifier::external_body]
fn sorted_ascending(v: Vec<u32>) -> (r: Vec<u32>)
    ensures
        r@.to_multiset() == v@.to_multiset(),
        sorted_by(r@, ascending()),
{
    v.into_iter().sorted().collect()
}

/// The sum of the three largest group totals.
pub fn part2(input: &str) -> (r: u32)
    requires
        forall|k: int|
            0 <= k < group_sums(text_lines(input)).len() ==> #[trigger] group_sums(text_lines(input))[k] <= u32::MAX,
        top_three(totals(input)) <= u32::MAX,
    ensures
        r == top_three(totals(input)),
{
    let sums = match parse(input) {
        Some(s) => s,
        None => {
            return 0;
        },
    };
    let ghost v = sums@;
    let t = sorted_ascending(sums);
    proof {
        let w = totals(input);
        assert(w =~= v) by {
            assert forall|k: int| 0 <= k < w.len() implies w[k] == v[k] by {
                assert(v.map_values(|x: u32| x as int)[k] == v[k] as int);
            }
        }
        assert(total_ordering(ascending()));
        v.lemma_sort_by_ensures(ascending());
        vstd::seq_lib::lemma_sorted_unique(t@, v.sort_by(ascending()), ascending());
    }
    let n = t.len();
    let mut total: u32 = 0;
    if n >= 1 {
        total = total + t[n - 1];
    }
    if n >= 2 {
        total = total + t[n - 2];
    }
    if n >= 3 {
        total = total + t[n - 3];
    }
    total
}

} // verus!
