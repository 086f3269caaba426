//! Rucksack priorities: letters as a 64-bit set, and the priority that sets share.
use vstd::prelude::*;
use crate::text::{str_lines, text_lines, views};

verus! {

pub open spec fn is_letter(b: u8) -> bool {
    (97 <= b <= 122) || (65 <= b <= 90)
}

/// `a`..`z` have priorities 1..26 and `A`..`Z` 27..52.
pub open spec fn priority_spec(b: u8) -> int {
    if 97 <= b <= 122 {
        b - 97 + 1
    } else {
        b - 65 + 27
    }
}

/// Returns the priority of a letter.
pub fn priority(item: u8) -> (r: usize)
    requires
        is_letter(item),
    ensures
        r == priority_spec(item),
        1 <= r <= 52,
{
    if 97 <= item && item <= 122 {
        (item - 97 + 1) as usize
    } else {
        (item - 65 + 27) as usize
    }
}

/// Bit `i` of `x` is set.
pub open spec fn has(x: u64, i: int) -> bool {
    (x >> (i as u64)) & 1 == 1
}

/// Whether some letter of `s` has priority `p`.
pub open spec fn holds(s: Seq<u8>, p: int) -> bool {
    exists|k: int| 0 <= k < s.len() && priority_spec(#[trigger] s[k]) == p
}

pub open spec fn all_letters(s: Seq<u8>) -> bool {
    forall|k: int| 0 <= k < s.len() ==> is_letter(#[trigger] s[k])
}

/// The least priority below 53, from `i` on, that `a` and `b` both hold; 0 when there is none.
pub open spec fn first_common(a: Seq<u8>, b: Seq<u8>, i: int) -> int
    decreases 53 - i,
{
    if i >= 53 {
        0
    } else if holds(a, i) && holds(b, i) {
        i
    } else {
        first_common(a, b, i + 1)
    }
}

/// The least priority below 53, from `i` on, that `a`, `b` and `c` all hold; 0 when there is none.
pub open spec fn first_common3(a: Seq<u8>, b: Seq<u8>, c: Seq<u8>, i: int) -> int
    decreases 53 - i,
{
    if i >= 53 {
        0
    } else if holds(a, i) && holds(b, i) && holds(c, i) {
        i
    } else {
        first_common3(a, b, c, i + 1)
    }
}

proof fn lemma_set_bit(x: u64, p: u64, i: u64)
    requires
        p < 64,
        i < 64,
    ensures
        ((x | (1u64 << p)) >> i) & 1 == 1 <==> ((x >> i) & 1 == 1 || i == p),
{
    assert(((x | (1u64 << p)) >> i) & 1 == 1 <==> ((x >> i) & 1 == 1 || i == p)) by (bit_vector)
        requires
            p < 64,
            i < 64,
    ;
}

proof fn lemma_mask(x: u64, i: u64)
    requires
        i < 64,
    ensures
        (x & (1u64 << i) > 0) <==> ((x >> i) & 1 == 1),
        (0u64 >> i) & 1 != 1,
{
    assert((x & (1u64 << i) > 0) <==> ((x >> i) & 1 == 1)) by (bit_vector)
        requires
            i < 64,
    ;
    assert((0u64 >> i) & 1 != 1) by (bit_vector);
}

/// A set of priorities: bit `i` is set when a letter of priority `i` was added.
pub struct CharSet {
    counts: u64,
}

impl CharSet {
    pub closed spec fn contains(&self, p: int) -> bool {
        has(self.counts, p)
    }

    /// The empty set.
    pub fn new() -> (r: CharSet)
        ensures
            forall|p: int| 0 <= p < 64 ==> !r.contains(p),
    {
        let r = CharSet { counts: 0 };
        assert forall|p: int| 0 <= p < 64 implies !r.contains(p) by {
            lemma_mask(0, p as u64);
        }
        r
    }

    /// The set of the priorities of the letters of `s`.
    pub fn from(s: &[u8]) -> (r: CharSet)
        requires
            all_letters(s@),
        ensures
            forall|p: int| 0 <= p < 64 ==> (r.contains(p) <==> holds(s@, p)),
    {
        let mut charset = CharSet::new();
        charset.add(s);
        charset
    }

    /// Adds the priorities of the letters of `s`.
    pub fn add(&mut self, s: &[u8])
        requires
            all_letters(s@),
        ensures
            forall|p: int| 0 <= p < 64 ==> (final(self).contains(p) <==> (old(self).contains(p) || holds(s@, p))),
    {
        let ghost start = self.counts;
        let mut i: usize = 0;
        while i < s.len()
            invariant
                i <= s@.len(),
                all_letters(s@),
                forall|p: int|
                    0 <= p < 64 ==> (#[trigger] has(self.counts, p) <==> (has(start, p) || holds(
                        s@.subrange(0, i as int),
                        p,
                    ))),
            decreases s@.len() - i,
        {
            let p = priority(s[i]);
            let ghost before = self.counts;
            self.counts = self.counts | (1u64 << (p as u64));
            assert forall|q: int| 0 <= q < 64 implies (#[trigger] has(self.counts, q) <==> (has(start, q) || holds(
                s@.subrange(0, i + 1),
                q,
            ))) by {
                lemma_set_bit(before, p as u64, q as u64);
                let pre = s@.subrange(0, i as int);
                let post = s@.subrange(0, i + 1);
                assert(has(before, q) == (has(start, q) || holds(pre, q)));
                assert(has(self.counts, q) == (has(before, q) || q == p));
                if holds(pre, q) {
                    let k = choose|k: int| 0 <= k < pre.len() && priority_spec(#[trigger] pre[k]) == q;
                    assert(post[k] == pre[k]);
                }
                if holds(post, q) {
                    let k = choose|k: int| 0 <= k < post.len() && priority_spec(#[trigger] post[k]) == q;
                    if k < i {
                        assert(post[k] == pre[k]);
                    }
                }
                if q == p {
                    assert(post[i as int] == s@[i as int]);
                }
            }
            i += 1;
        }
        assert(s@.subrange(0, s@.len() as int) =~= s@);
    }

    /// The least priority below 53 in both sets, or 0 when they share none.
    pub fn intersect(&self, other: &CharSet) -> (r: usize)
        ensures
            r < 53,
            forall|a: Seq<u8>, b: Seq<u8>|
                (forall|p: int| 0 <= p < 64 ==> (self.contains(p) <==> holds(a, p)) && (other.contains(p) <==> holds(b, p)))
                    ==> #[trigger] first_common(a, b, 0) == r,
    {
        let mut mask: u64 = 1;
        let mut idx: usize = 0;
        assert(1u64 << 0u64 == 1u64) by (bit_vector);
        while idx < 53
            invariant
                idx <= 53,
                mask == 1u64 << (idx as u64),
                forall|j: int| 0 <= j < idx ==> !(has(self.counts, j) && has(other.counts, j)),
            decreases 53 - idx,
        {
            proof {
                lemma_mask(self.counts, idx as u64);
                lemma_mask(other.counts, idx as u64);
            }
            if (self.counts & mask > 0) && (other.counts & mask > 0) {
                proof {
                    assert forall|a: Seq<u8>, b: Seq<u8>|
                        (forall|p: int| 0 <= p < 64 ==> (self.contains(p) <==> holds(a, p)) && (other.contains(p) <==> holds(b, p)))
                        implies #[trigger] first_common(a, b, 0) == idx by {
                        lemma_first_common_from(a, b, 0, idx as int);
                    }
                }
                return idx;
            }
            proof {
                assert((1u64 << (idx as u64)) << 1u64 == 1u64 << ((idx + 1) as u64)) by (bit_vector)
                    requires idx < 53;
            }
            mask = mask << 1u64;
            idx += 1;
        }
        proof {
            assert forall|a: Seq<u8>, b: Seq<u8>|
                (forall|p: int| 0 <= p < 64 ==> (self.contains(p) <==> holds(a, p)) && (other.contains(p) <==> holds(b, p)))
                implies #[trigger] first_common(a, b, 0) == 0 by {
                lemma_first_common_from(a, b, 0, 53);
            }
        }
        0
    }

    /// The least priority below 53 in all three sets, or 0 when they share none.
    pub fn intersect3(&self, other: &CharSet, third: &CharSet) -> (r: usize)
        ensures
            r < 53,
            forall|a: Seq<u8>, b: Seq<u8>, c: Seq<u8>|
                (forall|p: int|
                    0 <= p < 64 ==> (self.contains(p) <==> holds(a, p)) && (other.contains(p) <==> holds(b, p)) && (
                    third.contains(p) <==> holds(c, p))) ==> #[trigger] first_common3(a, b, c, 0) == r,
    {
        let mut mask: u64 = 1;
        let mut idx: usize = 0;
        assert(1u64 << 0u64 == 1u64) by (bit_vector);
        while idx < 53
            invariant
                idx <= 53,
                mask == 1u64 << (idx as u64),
                forall|j: int| 0 <= j < idx ==> !(has(self.counts, j) && has(other.counts, j) && has(third.counts, j)),
            decreases 53 - idx,
        {
            proof {
                lemma_mask(self.counts, idx as u64);
                lemma_mask(other.counts, idx as u64);
                lemma_mask(third.counts, idx as u64);
            }
            if (self.counts & mask > 0) && (other.counts & mask > 0) && (third.counts & mask > 0) {
                proof {
                    assert forall|a: Seq<u8>, b: Seq<u8>, c: Seq<u8>|
                        (forall|p: int|
                            0 <= p < 64 ==> (self.contains(p) <==> holds(a, p)) && (other.contains(p) <==> holds(b, p))
                                && (third.contains(p) <==> holds(c, p))) implies #[trigger] first_common3(a, b, c, 0)
                        == idx by {
                        lemma_first_common3_from(a, b, c, 0, idx as int);
                    }
                }
                return idx;
            }
            proof {
                assert((1u64 << (idx as u64)) << 1u64 == 1u64 << ((idx + 1) as u64)) by (bit_vector)
                    requires idx < 53;
            }
            mask = mask << 1u64;
            idx += 1;
        }
        proof {
            assert forall|a: Seq<u8>, b: Seq<u8>, c: Seq<u8>|
                (forall|p: int|
                    0 <= p < 64 ==> (self.contains(p) <==> holds(a, p)) && (other.contains(p) <==> holds(b, p)) && (
                    third.contains(p) <==> holds(c, p))) implies #[trigger] first_common3(a, b, c, 0) == 0 by {
                lemma_first_common3_from(a, b, c, 0, 53);
            }
        }
        0
    }
}

/// When no priority in `i .. j` is shared, the search from `i` gives what the search from `j` gives.
proof fn lemma_first_common_from(a: Seq<u8>, b: Seq<u8>, i: int, j: int)
    requires
        0 <= i <= j <= 53,
        forall|k: int| i <= k < j ==> !(holds(a, k) && holds(b, k)),
    ensures
        first_common(a, b, i) == first_common(a, b, j),
    decreases j - i,
{
    if i < j {
        lemma_first_common_from(a, b, i + 1, j);
    }
}

proof fn lemma_first_common3_from(a: Seq<u8>, b: Seq<u8>, c: Seq<u8>, i: int, j: int)
    requires
        0 <= i <= j <= 53,
        forall|k: int| i <= k < j ==> !(holds(a, k) && holds(b, k) && holds(c, k)),
    ensures
        first_common3(a, b, c, i) == first_common3(a, b, c, j),
    decreases j - i,
{
    if i < j {
        lemma_first_common3_from(a, b, c, i + 1, j);
    }
}


/// The shared priority of a rucksack line: of its first and second halves.
pub open spec fn line_priority(line: Seq<u8>) -> int {
    let half = (line.len() / 2) as int;
    first_common(line.subrange(0, half), line.subrange(half, line.len() as int), 0)
}

/// The sum of the shared priorities of the first `n` lines.
pub open spec fn rucksack_sum(lines: Seq<Seq<u8>>, n: int) -> int
    decreases n,
{
    if n <= 0 {
        0
    } else {
        rucksack_sum(lines, n - 1) + line_priority(lines[n - 1])
    }
}

/// The sum of the badge priorities of the first `g` groups of three lines.
pub open spec fn badge_sum(lines: Seq<Seq<u8>>, g: int) -> int
    decreases g,
{
    if g <= 0 {
        0
    } else {
        badge_sum(lines, g - 1) + first_common3(lines[3 * g - 3], lines[3 * g - 2], lines[3 * g - 1], 0)
    }
}

proof fn lemma_first_common_range(a: Seq<u8>, b: Seq<u8>, i: int)
    ensures
        0 <= first_common(a, b, i) < 53 || i < 0,
    decreases 53 - i,
{
    if i < 53 {
        lemma_first_common_range(a, b, i + 1);
    }
}

/// The sum, over the lines of `input`, of the priority shared by the two halves of the line.
pub fn part1(input: &str) -> (r: usize)
    requires
        forall|k: int| 0 <= k < text_lines(input).len() ==> all_letters(#[trigger] text_lines(input)[k]),
        text_lines(input).len() * 53 <= usize::MAX,
    ensures
        r == rucksack_sum(text_lines(input), text_lines(input).len() as int),
{
    let rows = str_lines(input);
    let ghost all = views(rows@);
    let mut total: usize = 0;
    let mut i: usize = 0;
    while i < rows.len()
        invariant
            all == views(rows@),
            all == text_lines(input),
            i <= all.len(),
            forall|k: int| 0 <= k < all.len() ==> all_letters(#[trigger] all[k]),
            all.len() * 53 <= usize::MAX,
            total == rucksack_sum(all, i as int),
            total <= i * 53,
        decreases all.len() - i,
    {
        let line = &rows[i];
        assert(line@ == all[i as int]);
        let half = line.len() / 2;
        let first = crate::text::slice_of(line.as_slice(), 0, half);
        let second = crate::text::slice_of(line.as_slice(), half, line.len());
        assert(all_letters(first@));
        assert(all_letters(second@));
        let set1 = CharSet::from(first.as_slice());
        let set2 = CharSet::from(second.as_slice());
        let p = set1.intersect(&set2);
        assert(first_common(first@, second@, 0) == p);
        assert(total + p <= (i + 1) * 53) by (nonlinear_arith)
            requires
                total <= i * 53,
                p < 53,
        ;
        assert((i + 1) * 53 <= all.len() * 53) by (nonlinear_arith)
            requires
                i < all.len(),
        ;
        total = total + p;
        i += 1;
    }
    total
}

/// The sum, over each group of three lines of `input`, of the priority all three share.
pub fn part2(input: &str) -> (r: usize)
    requires
        forall|k: int| 0 <= k < text_lines(input).len() ==> all_letters(#[trigger] text_lines(input)[k]),
        text_lines(input).len() * 53 <= usize::MAX,
    ensures
        r == badge_sum(text_lines(input), (text_lines(input).len() / 3) as int),
{
    let rows = str_lines(input);
    let ghost all = views(rows@);
    let groups = rows.len() / 3;
    let mut total: usize = 0;
    let mut g: usize = 0;
    while g < groups
        invariant
            all == views(rows@),
            all == text_lines(input),
            groups == all.len() / 3,
            g <= groups,
            forall|k: int| 0 <= k < all.len() ==> all_letters(#[trigger] all[k]),
            all.len() * 53 <= usize::MAX,
            total == badge_sum(all, g as int),
            total <= g * 53,
        decreases groups - g,
    {
        assert(rows@[3 * g as int]@ == all[3 * g as int]);
        assert(rows@[3 * g + 1]@ == all[3 * g + 1]);
        assert(rows@[3 * g + 2]@ == all[3 * g + 2]);
        let a = CharSet::from(rows[3 * g].as_slice());
        let b = CharSet::from(rows[3 * g + 1].as_slice());
        let c = CharSet::from(rows[3 * g + 2].as_slice());
        let p = a.intersect3(&b, &c);
        assert(first_common3(all[3 * g as int], all[3 * g + 1], all[3 * g + 2], 0) == p);
        assert(total + p <= (g + 1) * 53) by (nonlinear_arith)
            requires
                total <= g * 53,
                p < 53,
        ;
        assert((g + 1) * 53 <= all.len() * 53) by (nonlinear_arith)
            requires
                g < all.len() / 3,
        ;
        total = total + p;
        g += 1;
    }
    total
}

} // verus!
